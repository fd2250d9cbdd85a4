//! The type pool: every type the checker knows, interned once.
//!
//! A type is named by its index in the pool, and interning is structural: asking for
//! a type that is already present returns the index it already has, so two types are
//! the same type exactly when their ids are equal. Struct and enum types are nominal —
//! their identity is the declaration site, not their fields — and pointers are
//! structural. The first nine ids are fixed, so the checker can name the builtin types
//! without a lookup.

use vstd::prelude::*;

verus! {

/// The index of a type in the pool.
pub type PoolId = usize;

/// The poison type: an expression that could not be typed.
pub const ERROR: PoolId = 0;
/// The type of a procedure that returns nothing.
pub const VOID: PoolId = 1;
/// `bool`.
pub const BOOL: PoolId = 2;
/// `string`.
pub const STRING: PoolId = 3;
/// The type of a name that denotes a type.
pub const TYPE: PoolId = 4;
/// The handle type of a `#system_library` constant.
pub const FOREIGN_LIBRARY: PoolId = 5;
/// `s64`.
pub const S64: PoolId = 6;
/// `u8`.
pub const U8: PoolId = 7;
/// `*u8`.
pub const PTR_U8: PoolId = 8;

/// The number of fixed ids at the start of every pool.
pub const WELL_KNOWN: usize = 9;

/// A nominal declaration: the file it is in and its index there.
#[derive(Clone, Copy, Debug, PartialEq, Eq, Structural)]
pub struct DeclId {
    pub file: u32,
    pub index: u32,
}

/// One interned type.
#[derive(Debug)]
pub enum TypeItem {
    ErrorType,
    VoidType,
    BoolType,
    StringType,
    TypeType,
    ForeignLibraryType,
    IntType { signed: bool, bits: u16 },
    PointerType(PoolId),
    StructType(DeclId),
    EnumType { decl: DeclId, flags: bool },
    /// A procedure type; `must` when a caller has to receive its result.
    ProcType { params: Vec<PoolId>, ret: PoolId, must: bool, c_call: bool },
    /// `[len]elem`.
    ArrayType { elem: PoolId, len: u64 },
    /// `[]elem`: a pointer to elements and a count.
    ViewType { elem: PoolId },
    /// What a procedure declared `-> (T, U)` returns: several values, which are not one.
    ResultsType { elems: Vec<PoolId> },
    ForeignLibraryValue(String),
    /// A constant `bool`.
    BoolValue(bool),
    /// A constant `string`.
    StrValue(String),
    /// A constant integer of the integer or pointer type `ty`.
    IntValue { ty: PoolId, value: i128 },
}

/// What a [`TypeItem`] is, as a mathematical value.
pub enum Shape {
    Error,
    Void,
    Bool,
    Str,
    Type,
    ForeignLibrary,
    Int { signed: bool, bits: u16 },
    Pointer(PoolId),
    Struct(DeclId),
    Enum { decl: DeclId, flags: bool },
    Proc { params: Seq<PoolId>, ret: PoolId, must: bool, c_call: bool },
    Array { elem: PoolId, len: u64 },
    View { elem: PoolId },
    Results { elems: Seq<PoolId> },
    LibraryValue(Seq<char>),
    BoolValue(bool),
    StrValue(Seq<char>),
    IntValue { ty: PoolId, value: i128 },
}

impl View for TypeItem {
    type V = Shape;

    open spec fn view(&self) -> Shape {
        match self {
            TypeItem::ErrorType => Shape::Error,
            TypeItem::VoidType => Shape::Void,
            TypeItem::BoolType => Shape::Bool,
            TypeItem::StringType => Shape::Str,
            TypeItem::TypeType => Shape::Type,
            TypeItem::ForeignLibraryType => Shape::ForeignLibrary,
            TypeItem::IntType { signed, bits } => Shape::Int { signed: *signed, bits: *bits },
            TypeItem::PointerType(p) => Shape::Pointer(*p),
            TypeItem::StructType(d) => Shape::Struct(*d),
            TypeItem::EnumType { decl, flags } => Shape::Enum { decl: *decl, flags: *flags },
            TypeItem::ProcType { params, ret, must, c_call } => Shape::Proc { params: params@, ret: *ret, must: *must, c_call: *c_call },
            TypeItem::ArrayType { elem, len } => Shape::Array { elem: *elem, len: *len },
            TypeItem::ViewType { elem } => Shape::View { elem: *elem },
            TypeItem::ResultsType { elems } => Shape::Results { elems: elems@ },
            TypeItem::ForeignLibraryValue(name) => Shape::LibraryValue(name@),
            TypeItem::BoolValue(b) => Shape::BoolValue(*b),
            TypeItem::StrValue(text) => Shape::StrValue(text@),
            TypeItem::IntValue { ty, value } => Shape::IntValue { ty: *ty, value: *value },
        }
    }
}

/// Every id a shape refers to is below `bound`.
pub open spec fn refers_below(s: Shape, bound: int) -> bool {
    match s {
        Shape::Pointer(p) => p < bound,
        Shape::IntValue { ty, .. } => ty < bound,
        Shape::Array { elem, .. } => elem < bound,
        Shape::View { elem } => elem < bound,
        Shape::Results { elems } => forall|k: int| 0 <= k < elems.len() ==> elems[k] < bound,
        Shape::Proc { params, ret, .. } => ret < bound && forall|k: int|
            0 <= k < params.len() ==> params[k] < bound,
        _ => true,
    }
}

/// The shapes of the well-known prefix.
pub open spec fn well_known_prefix(items: Seq<Shape>) -> bool {
    &&& items.len() >= WELL_KNOWN
    &&& items[ERROR as int] == Shape::Error
    &&& items[VOID as int] == Shape::Void
    &&& items[BOOL as int] == Shape::Bool
    &&& items[STRING as int] == Shape::Str
    &&& items[TYPE as int] == Shape::Type
    &&& items[FOREIGN_LIBRARY as int] == Shape::ForeignLibrary
    &&& items[S64 as int] == (Shape::Int { signed: true, bits: 64 })
    &&& items[U8 as int] == (Shape::Int { signed: false, bits: 8 })
    &&& items[PTR_U8 as int] == Shape::Pointer(U8)
}

/// A field of a struct type: its name and its type.
#[derive(Debug)]
pub struct Field {
    pub name: String,
    pub ty: PoolId,
}

/// The type pool.
pub struct Pool {
    items: Vec<TypeItem>,
    struct_fields: Vec<(DeclId, Vec<Field>)>,
    enum_members: Vec<(DeclId, Vec<(u32, i64)>)>,
}

impl View for Pool {
    type V = Seq<Shape>;

    closed spec fn view(&self) -> Seq<Shape> {
        Seq::new(self.items@.len(), |i: int| self.items@[i]@)
    }
}

/// Two field lists with the same names and types.
pub open spec fn fields_view(fields: Seq<Field>) -> Seq<(Seq<char>, PoolId)> {
    Seq::new(fields.len(), |i: int| (fields[i].name@, fields[i].ty))
}

impl Pool {
    /// The pool is well formed: the fixed prefix is in place, no shape occurs twice, and
    /// every id a shape refers to was interned before it.
    pub open spec fn wf(&self) -> bool {
        &&& well_known_prefix(self@)
        &&& forall|i: int, j: int|
            0 <= i < j < self@.len() ==> #[trigger] self@[i] != #[trigger] self@[j]
        &&& forall|i: int| 0 <= i < self@.len() ==> refers_below(#[trigger] self@[i], i)
    }

    /// The field list recorded for a struct declaration, if any.
    pub closed spec fn fields_of(&self, decl: DeclId) -> Option<Seq<(Seq<char>, PoolId)>> {
        if exists|k: int| 0 <= k < self.struct_fields@.len() && #[trigger] self.struct_fields@[k].0 == decl {
            let k = choose|k: int| 0 <= k < self.struct_fields@.len() && #[trigger] self.struct_fields@[k].0 == decl;
            Some(fields_view(self.struct_fields@[k].1@))
        } else {
            None
        }
    }

    /// The declarations whose field lists are recorded occur once each.
    pub closed spec fn fields_unique(&self) -> bool {
        forall|i: int, j: int|
            0 <= i < j < self.struct_fields@.len() ==> #[trigger] self.struct_fields@[i].0
                != #[trigger] self.struct_fields@[j].0
    }

    /// Every recorded field names an interned type, and every field name is short enough
    /// to measure.
    pub open spec fn fields_valid(&self) -> bool {
        forall|d: DeclId| #[trigger] self.fields_of(d) matches Some(fs) ==> fields_fit(fs, self@.len())
    }

    /// The field list recorded for `decl`, if any, and the position of the first field
    /// called `name` in it.
    pub fn field_type(&self, decl: DeclId, name: &str) -> (r: Option<PoolId>)
        requires
            self.fields_unique(),
        ensures
            r == spec_field_type(self.fields_of(decl), name@),
    {
        match self.fields_position(decl) {
            None => None,
            Some(k) => {
                proof {
                    self.lemma_fields_of_at(k as int);
                }
                let fields = &self.struct_fields[k].1;
                let ghost fv = fields_view(fields@);
                assert(self.fields_of(decl) == Some(fv));
                assert(fv.len() == fields@.len());
                let mut i: usize = 0;
                while i < fields.len()
                    invariant
                        self.fields_of(decl) == Some(fv),
                        fv == fields_view(fields@),
                        i <= fields@.len(),
                        first_field_named(fv, name@, 0) == first_field_named(fv, name@, i as int),
                    decreases fields@.len() - i,
                {
                    assert(fv[i as int] == (fields@[i as int].name@, fields@[i as int].ty));
                    if crate::suggest::str_eq(fields[i].name.as_str(), name) {
                        assert(first_field_named(fv, name@, i as int) == Some(fv[i as int].1));
                        return Some(fields[i].ty);
                    }
                    i = i + 1;
                }
                None
            },
        }
    }

    /// The names of the fields recorded for `decl`, in order; empty when none are.
    pub fn field_names(&self, decl: DeclId) -> (r: Vec<String>)
        requires
            self.fields_unique(),
        ensures
            match self.fields_of(decl) {
                Some(fs) => r@.len() == fs.len() && forall|i: int| 0 <= i < fs.len() ==> (#[trigger] r@[i])@ == fs[i].0,
                None => r@.len() == 0,
            },
    {
        let mut out: Vec<String> = Vec::new();
        match self.fields_position(decl) {
            None => {},
            Some(k) => {
                proof {
                    self.lemma_fields_of_at(k as int);
                }
                let fields = &self.struct_fields[k].1;
                let mut i: usize = 0;
                while i < fields.len()
                    invariant
                        i <= fields@.len(),
                        out@.len() == i,
                        forall|m: int| 0 <= m < i ==> (#[trigger] out@[m])@ == fields@[m].name@,
                    decreases fields@.len() - i,
                {
                    out.push(fields[i].name.clone());
                    i = i + 1;
                }
            },
        }
        out
    }

    /// An empty pool holding just the well-known types.
    pub fn new() -> (r: Pool)
        ensures
            r.wf(),
            r@.len() == WELL_KNOWN,
            r.fields_unique(),
            forall|d: DeclId| r.fields_of(d) is None,
            forall|d: DeclId| r.members_of(d) is None,
    {
        let mut items: Vec<TypeItem> = Vec::new();
        items.push(TypeItem::ErrorType);
        items.push(TypeItem::VoidType);
        items.push(TypeItem::BoolType);
        items.push(TypeItem::StringType);
        items.push(TypeItem::TypeType);
        items.push(TypeItem::ForeignLibraryType);
        items.push(TypeItem::IntType { signed: true, bits: 64 });
        items.push(TypeItem::IntType { signed: false, bits: 8 });
        items.push(TypeItem::PointerType(U8));
        let r = Pool { items, struct_fields: Vec::new(), enum_members: Vec::new() };
        assert(r@[0] == Shape::Error);
        assert(r@[8] == Shape::Pointer(U8));
        r
    }

    /// The number of interned types.
    pub fn len(&self) -> (r: usize)
        ensures
            r == self@.len(),
    {
        self.items.len()
    }

    /// The interned type `id`.
    pub fn item(&self, id: PoolId) -> (r: &TypeItem)
        requires
            id < self@.len(),
        ensures
            r@ == self@[id as int],
    {
        &self.items[id]
    }

    /// The id of `item`'s shape, if it is interned.
    pub fn find(&self, item: &TypeItem) -> (r: Option<PoolId>)
        ensures
            r matches Some(i) ==> i < self@.len() && self@[i as int] == item@,
            r is None ==> !self@.contains(item@),
    {
        let n = self.items.len();
        let mut i: usize = 0;
        while i < n
            invariant
                n == self@.len(),
                i <= n,
                forall|k: int| 0 <= k < i ==> self@[k] != item@,
            decreases n - i,
        {
            if same_item(&self.items[i], item) {
                return Some(i);
            }
            i = i + 1;
        }
        assert forall|k: int| 0 <= k < self@.len() implies self@[k] != item@ by {}
        None
    }

    /// Interns `item`, returning the id it already has or a fresh one.
    ///
    /// Structural: the same shape always yields the same id, and a shape is added only
    /// when it was not present.
    pub fn intern(&mut self, item: TypeItem) -> (r: PoolId)
        requires
            old(self).wf(),
            refers_below(item@, old(self)@.len() as int),
        ensures
            final(self).wf(),
            r < final(self)@.len(),
            final(self)@[r as int] == item@,
            old(self)@.contains(item@) ==> final(self)@ == old(self)@,
            !old(self)@.contains(item@) ==> final(self)@ == old(self)@.push(item@) && r
                == old(self)@.len(),
            final(self).fields_unique() == old(self).fields_unique(),
            forall|d: DeclId| final(self).fields_of(d) == old(self).fields_of(d),
            forall|d: DeclId| final(self).members_of(d) == old(self).members_of(d),
    {
        let n = self.items.len();
        match self.find(&item) {
            Some(i) => {
                return i;
            },
            None => {},
        }
        let ghost before = self@;
        self.items.push(item);
        proof {
            assert(self.struct_fields == old(self).struct_fields);
            assert(self@ =~= before.push(item@));
            assert forall|a: int, b: int| 0 <= a < b < self@.len() implies #[trigger] self@[a]
                != #[trigger] self@[b] by {
                if b == n {
                    assert(self@[a] == before[a]);
                }
            }
            assert forall|k: int| 0 <= k < self@.len() implies refers_below(#[trigger] self@[k], k) by {
                if k < n {
                    assert(self@[k] == before[k]);
                }
            }
        }
        n
    }

    /// The pointee of a pointer type, or `None` for any other type.
    pub fn pointee(&self, ty: PoolId) -> (r: Option<PoolId>)
        requires
            ty < self@.len(),
        ensures
            r == spec_pointee(self@, ty),
    {
        match &self.items[ty] {
            TypeItem::PointerType(p) => Some(*p),
            _ => None,
        }
    }

    /// The signedness and width of an integer type, or `None` for any other type.
    pub fn int_info(&self, ty: PoolId) -> (r: Option<(bool, u16)>)
        requires
            ty < self@.len(),
        ensures
            r == spec_int_info(self@, ty),
    {
        match &self.items[ty] {
            TypeItem::IntType { signed, bits } => Some((*signed, *bits)),
            _ => None,
        }
    }

    /// Whether `ty` is an enum declared `enum_flags`.
    pub fn is_flags(&self, ty: PoolId) -> (r: bool)
        requires
            ty < self@.len(),
        ensures
            r == (self@[ty as int] matches Shape::Enum { flags, .. } && flags),
    {
        match &self.items[ty] {
            TypeItem::EnumType { flags, .. } => *flags,
            _ => false,
        }
    }

    /// Whether `ty` is an enum type.
    pub fn is_enum(&self, ty: PoolId) -> (r: bool)
        requires
            ty < self@.len(),
        ensures
            r == (self@[ty as int] is Enum),
    {
        match &self.items[ty] {
            TypeItem::EnumType { .. } => true,
            _ => false,
        }
    }



    /// The library name a foreign-library value was interned for.
    pub fn foreign_library_name(&self, id: PoolId) -> (r: Option<&str>)
        ensures
            r matches Some(name) ==> id < self@.len() && self@[id as int] == Shape::LibraryValue(name@),
            r is None ==> !(id < self@.len() && self@[id as int] is LibraryValue),
    {
        if id < self.items.len() {
            match &self.items[id] {
                TypeItem::ForeignLibraryValue(name) => Some(name.as_str()),
                _ => None,
            }
        } else {
            None
        }
    }

    /// The members recorded for an enum declaration, each a name and its value: the last
    /// list recorded for it.
    pub closed spec fn members_of(&self, decl: DeclId) -> Option<Seq<(u32, i64)>> {
        last_members(self.enum_members@, decl, self.enum_members@.len() as int)
    }

    /// Records an enum's members, replacing any list recorded before.
    pub fn set_enum_members(&mut self, decl: DeclId, members: Vec<(u32, i64)>)
        ensures
            final(self)@ == old(self)@,
            final(self).wf() == old(self).wf(),
            final(self).fields_unique() == old(self).fields_unique(),
            forall|d: DeclId| final(self).fields_of(d) == old(self).fields_of(d),
            final(self).members_of(decl) == Some(members@),
            forall|d: DeclId| d != decl ==> final(self).members_of(d) == old(self).members_of(d),
    {
        let ghost before = self.enum_members@;
        self.enum_members.push((decl, members));
        proof {
            assert(self.struct_fields == old(self).struct_fields);
            assert(self.items == old(self).items);
            let after = self.enum_members@;
            assert(after.len() == before.len() + 1);
            assert forall|d: DeclId| d != decl implies last_members(after, d, after.len() as int) == last_members(
                before,
                d,
                before.len() as int,
            ) by {
                lemma_last_members_prefix(before, after, d, before.len() as int);
            }
        }
    }

    /// The value of the member called `member` of the enum `decl`, if it has one.
    pub fn member_value(&self, decl: DeclId, member: u32) -> (r: Option<i64>)
        ensures
            r == match self.members_of(decl) {
                Some(ms) => member_value_of(ms, member),
                None => None,
            },
    {
        match self.member_list(decl) {
            Some(list) => {
                let mut i: usize = 0;
                while i < list.len()
                    invariant
                        i <= list@.len(),
                        self.members_of(decl) == Some(list@),
                        member_value_of(list@, member) == member_value_from(list@, member, i as int),
                    decreases list@.len() - i,
                {
                    if list[i].0 == member {
                        return Some(list[i].1);
                    }
                    i = i + 1;
                }
                None
            },
            None => None,
        }
    }

    /// The member names recorded for the enum `decl`.
    pub fn member_list(&self, decl: DeclId) -> (r: Option<&Vec<(u32, i64)>>)
        ensures
            r matches Some(l) ==> self.members_of(decl) == Some(l@),
            r is None ==> self.members_of(decl) is None,
    {
        let mut k: usize = self.enum_members.len();
        while k > 0
            invariant
                k <= self.enum_members@.len(),
                last_members(self.enum_members@, decl, self.enum_members@.len() as int) == last_members(
                    self.enum_members@,
                    decl,
                    k as int,
                ),
            decreases k,
        {
            if self.enum_members[k - 1].0 == decl {
                return Some(&self.enum_members[k - 1].1);
            }
            k = k - 1;
        }
        None
    }

    /// With each declaration recorded once, the list recorded at `m` is the one
    /// `fields_of` reports for its declaration.
    proof fn lemma_fields_of_at(&self, m: int)
        requires
            self.fields_unique(),
            0 <= m < self.struct_fields@.len(),
        ensures
            self.fields_of(self.struct_fields@[m].0) == Some(fields_view(self.struct_fields@[m].1@)),
    {
        let d = self.struct_fields@[m].0;
        let k = choose|k: int| 0 <= k < self.struct_fields@.len() && #[trigger] self.struct_fields@[k].0 == d;
        if k < m {
            assert(self.struct_fields@[k].0 != self.struct_fields@[m].0);
        } else if m < k {
            assert(self.struct_fields@[m].0 != self.struct_fields@[k].0);
        }
    }

    /// Where the field list of `decl` is recorded, if it is.
    fn fields_position(&self, decl: DeclId) -> (r: Option<usize>)
        ensures
            r matches Some(k) ==> k < self.struct_fields@.len() && self.struct_fields@[k as int].0 == decl,
            r is None ==> forall|m: int| 0 <= m < self.struct_fields@.len() ==> self.struct_fields@[m].0 != decl,
    {
        let n = self.struct_fields.len();
        let mut k: usize = 0;
        while k < n
            invariant
                n == self.struct_fields@.len(),
                k <= n,
                forall|m: int| 0 <= m < k ==> self.struct_fields@[m].0 != decl,
            decreases n - k,
        {
            if self.struct_fields[k].0 == decl {
                return Some(k);
            }
            k = k + 1;
        }
        None
    }

    /// Records the field list of a struct, replacing any list already recorded for it.
    pub fn set_struct_fields(&mut self, decl: DeclId, fields: Vec<Field>)
        requires
            old(self).fields_unique(),
        ensures
            final(self)@ == old(self)@,
            final(self).wf() == old(self).wf(),
            final(self).fields_unique(),
            final(self).fields_of(decl) == Some(fields_view(fields@)),
            forall|d: DeclId| d != decl ==> final(self).fields_of(d) == old(self).fields_of(d),
            forall|d: DeclId| final(self).members_of(d) == old(self).members_of(d),
    {
        let ghost fv = fields_view(fields@);
        let ghost old_pool = *self;
        let ghost old_fields = self.struct_fields@;
        let n = self.struct_fields.len();
        let pos = self.fields_position(decl);
        let found = pos.is_some();
        let k: usize = match pos {
            Some(k) => k,
            None => n,
        };
        if found {
            let _ = self.struct_fields.remove(k);
            self.struct_fields.insert(k, (decl, fields));
            assert(self.struct_fields@ =~= old_fields.update(k as int, (decl, fields)));
        } else {
            self.struct_fields.push((decl, fields));
            assert(self.struct_fields@ =~= old_fields.push((decl, fields)));
        }
        proof {
            let len = self.struct_fields@.len();
            assert forall|i: int, j: int| 0 <= i < j < len implies #[trigger] self.struct_fields@[i].0
                != #[trigger] self.struct_fields@[j].0 by {
                if found {
                    if i != k && j != k {
                        assert(old_fields[i].0 != old_fields[j].0);
                    }
                } else if j < n {
                    assert(old_fields[i].0 != old_fields[j].0);
                }
            }
            assert(self.fields_unique());
            let at = if found { k as int } else { n as int };
            assert(self.struct_fields@[at].0 == decl);
            self.lemma_fields_of_at(at);
            assert forall|d: DeclId| d != decl implies #[trigger] self.fields_of(d) == old_pool.fields_of(d) by {
                if exists|m: int| 0 <= m < n && #[trigger] old_fields[m].0 == d {
                    let m = choose|m: int| 0 <= m < n && #[trigger] old_fields[m].0 == d;
                    old_pool.lemma_fields_of_at(m);
                    assert(self.struct_fields@[m] == old_fields[m]);
                    self.lemma_fields_of_at(m);
                } else {
                    assert forall|m: int| 0 <= m < len implies #[trigger] self.struct_fields@[m].0 != d by {
                        if m < n {
                            assert(self.struct_fields@[m].0 == old_fields[m].0 || m == at);
                        }
                    }
                }
            }
        }
    }
}


/// The member list of the last entry for `decl` among the first `n` entries.
pub open spec fn last_members(list: Seq<(DeclId, Vec<(u32, i64)>)>, decl: DeclId, n: int) -> Option<Seq<(u32, i64)>>
    decreases n,
{
    if n <= 0 || n > list.len() {
        None
    } else if list[n - 1].0 == decl {
        Some(list[n - 1].1@)
    } else {
        last_members(list, decl, n - 1)
    }
}

/// The value of the first member called `name` in `members[i..]`.
pub open spec fn member_value_from(members: Seq<(u32, i64)>, name: u32, i: int) -> Option<i64>
    decreases members.len() - i,
{
    if i < 0 || i >= members.len() {
        None
    } else if members[i].0 == name {
        Some(members[i].1)
    } else {
        member_value_from(members, name, i + 1)
    }
}

/// The value of the first member called `name`.
pub open spec fn member_value_of(members: Seq<(u32, i64)>, name: u32) -> Option<i64> {
    member_value_from(members, name, 0)
}

/// Entries appended after the first `n` do not change what the first `n` say.
proof fn lemma_last_members_prefix(
    before: Seq<(DeclId, Vec<(u32, i64)>)>,
    after: Seq<(DeclId, Vec<(u32, i64)>)>,
    decl: DeclId,
    n: int,
)
    requires
        0 <= n <= before.len() <= after.len(),
        forall|k: int| 0 <= k < before.len() ==> after[k] == before[k],
        after.len() == before.len() + 1,
        n == before.len() ==> after[n].0 != decl,
    ensures
        n == before.len() ==> last_members(after, decl, n + 1) == last_members(before, decl, n),
        last_members(after, decl, n) == last_members(before, decl, n),
    decreases n,
{
    if n > 0 {
        lemma_last_members_prefix(before, after, decl, n - 1);
    }
}

/// Every field names a type below `n` and has a measurable name.
pub open spec fn fields_fit(fs: Seq<(Seq<char>, PoolId)>, n: nat) -> bool {
    forall|k: int| 0 <= k < fs.len() ==> (#[trigger] fs[k]).1 < n && fs[k].0.len() < usize::MAX
}

/// The type of the first field called `name` in `fs[i..]`.
pub open spec fn first_field_named(fs: Seq<(Seq<char>, PoolId)>, name: Seq<char>, i: int) -> Option<PoolId>
    decreases fs.len() - i,
{
    if i < 0 || i >= fs.len() {
        None
    } else if fs[i].0 == name {
        Some(fs[i].1)
    } else {
        first_field_named(fs, name, i + 1)
    }
}

/// A field found in a list whose types are all below `n` has a type below `n`.
pub proof fn lemma_first_field_fits(fs: Seq<(Seq<char>, PoolId)>, name: Seq<char>, i: int, n: nat)
    requires
        fields_fit(fs, n),
    ensures
        first_field_named(fs, name, i) matches Some(t) ==> t < n,
    decreases fs.len() - i,
{
    if 0 <= i < fs.len() && fs[i].0 != name {
        lemma_first_field_fits(fs, name, i + 1, n);
    }
}

/// The type of the first field called `name`, in a recorded field list.
pub open spec fn spec_field_type(fields: Option<Seq<(Seq<char>, PoolId)>>, name: Seq<char>) -> Option<PoolId> {
    match fields {
        Some(fs) => first_field_named(fs, name, 0),
        None => None,
    }
}

/// The pointee of `ty`, when `ty` is a pointer type.
pub open spec fn spec_pointee(items: Seq<Shape>, ty: PoolId) -> Option<PoolId> {
    match items[ty as int] {
        Shape::Pointer(p) => Some(p),
        _ => None,
    }
}

/// The signedness and width of `ty`, when `ty` is an integer type.
pub open spec fn spec_int_info(items: Seq<Shape>, ty: PoolId) -> Option<(bool, u16)> {
    match items[ty as int] {
        Shape::Int { signed, bits } => Some((signed, bits)),
        _ => None,
    }
}

/// Two items with the same shape.
pub fn same_item(a: &TypeItem, b: &TypeItem) -> (r: bool)
    ensures
        r == (a@ == b@),
{
    match (a, b) {
        (TypeItem::ErrorType, TypeItem::ErrorType) => true,
        (TypeItem::VoidType, TypeItem::VoidType) => true,
        (TypeItem::BoolType, TypeItem::BoolType) => true,
        (TypeItem::StringType, TypeItem::StringType) => true,
        (TypeItem::TypeType, TypeItem::TypeType) => true,
        (TypeItem::ForeignLibraryType, TypeItem::ForeignLibraryType) => true,
        (
            TypeItem::IntType { signed: s1, bits: b1 },
            TypeItem::IntType { signed: s2, bits: b2 },
        ) => *s1 == *s2 && *b1 == *b2,
        (TypeItem::PointerType(p1), TypeItem::PointerType(p2)) => *p1 == *p2,
        (TypeItem::StructType(d1), TypeItem::StructType(d2)) => *d1 == *d2,
        (
            TypeItem::EnumType { decl: d1, flags: f1 },
            TypeItem::EnumType { decl: d2, flags: f2 },
        ) => *d1 == *d2 && *f1 == *f2,
        (
            TypeItem::ProcType { params: p1, ret: r1, must: m1, c_call: c1 },
            TypeItem::ProcType { params: p2, ret: r2, must: m2, c_call: c2 },
        ) => *r1 == *r2 && *m1 == *m2 && *c1 == *c2 && same_ids(p1, p2),
        (TypeItem::ForeignLibraryValue(n1), TypeItem::ForeignLibraryValue(n2)) => *n1 == *n2,
        (TypeItem::ArrayType { elem: e1, len: l1 }, TypeItem::ArrayType { elem: e2, len: l2 }) => *e1 == *e2 && *l1 == *l2,
        (TypeItem::ViewType { elem: e1 }, TypeItem::ViewType { elem: e2 }) => *e1 == *e2,
        (TypeItem::ResultsType { elems: e1 }, TypeItem::ResultsType { elems: e2 }) => same_ids(e1, e2),
        (TypeItem::BoolValue(b1), TypeItem::BoolValue(b2)) => *b1 == *b2,
        (TypeItem::StrValue(t1), TypeItem::StrValue(t2)) => *t1 == *t2,
        (TypeItem::IntValue { ty: t1, value: v1 }, TypeItem::IntValue { ty: t2, value: v2 }) => *t1 == *t2
            && *v1 == *v2,
        _ => false,
    }
}

/// Two id lists with the same elements in the same order.
pub fn same_ids(a: &Vec<PoolId>, b: &Vec<PoolId>) -> (r: bool)
    ensures
        r == (a@ == b@),
{
    if a.len() != b.len() {
        return false;
    }
    let mut i: usize = 0;
    while i < a.len()
        invariant
            a@.len() == b@.len(),
            i <= a@.len(),
            forall|k: int| 0 <= k < i ==> a@[k] == b@[k],
        decreases a@.len() - i,
    {
        if a[i] != b[i] {
            return false;
        }
        i = i + 1;
    }
    assert(a@ =~= b@);
    true
}

/// In a well-formed pool a shape has exactly one id: two ids with the same shape are
/// the same id.
pub proof fn lemma_interning_is_injective(pool: Pool, x: int, y: int)
    requires
        pool.wf(),
        0 <= x < pool@.len(),
        0 <= y < pool@.len(),
        pool@[x] == pool@[y],
    ensures
        x == y,
{
    if x < y {
        assert(pool@[x] != pool@[y]);
    } else if y < x {
        assert(pool@[y] != pool@[x]);
    }
}

} // verus!
