//! The signature phase: typing declarations without checking bodies.

use vstd::prelude::*;
use crate::check::types_fit;
use crate::check::{emitted, lemma_emitted_trans};
use crate::typing::{plain_item_diags, plain_signature_diags, plain_signature_file};
use crate::ctx::{Ctx, Diagnostic, Mode, entries_valid, finished_recorded, lemma_entries_valid_grow, pool_extends, pool_ready};
use crate::hir::{FileHir, Interner, ItemKind};
use crate::map::TypeMap;
use crate::pool::{DeclId, Pool, TypeItem, TYPE};
use crate::sigs::{FileSignatures, SigEntry, SigKind};

verus! {

/// A module this file imports, as the signature phase needs to see it: its name as
/// written in `#import "Name"`, its file id — half of every nominal type's identity —
/// and its lowered form. The signature phase reads an import's declarations, never its
/// signatures, so that two modules importing each other still terminate.
pub struct ImportedFile<'a> {
    pub name: &'a str,
    pub file: u32,
    pub hir: &'a FileHir,
}

/// What the signature phase produces.
pub struct SignatureOutput {
    /// The file's signatures, for its own check phase and for its importers.
    pub signatures: FileSignatures,
    /// The types of the file-level expressions this phase typed.
    pub types: TypeMap,
    /// Diagnostics about declarations: unresolvable annotations, constants whose
    /// initialiser does not check, overloads that cannot be declared, and constant cycles.
    pub diagnostics: Vec<Diagnostic>,
}

/// Every import's declarations are well formed.
pub open spec fn imported_hirs_wf(imports: Seq<ImportedFile>) -> bool {
    forall|i: int| 0 <= i < imports.len() ==> (#[trigger] imports[i]).hir.wf()
}

/// Computes the signatures of one file.
///
/// This phase owns every named file-level declaration: it resolves parameter, return,
/// field and variable annotations, and types constant initialisers. An imported name's
/// type is obtained by computing that module's signatures here with no imports of its
/// own, so the recursion is one level deep and terminates even for a module cycle.
///
/// Struct names get their type identity first, so a struct that points at itself, or two
/// that point at each other, resolve without tripping the constant-cycle guard; then
/// every item is forced, in any order, because signatures are computed on demand.
pub fn file_signatures(
    hir: &FileHir,
    file: u32,
    imports: &[ImportedFile],
    pool: &mut Pool,
    interner: &Interner,
) -> (r: SignatureOutput)
    requires
        hir.wf(),
        imported_hirs_wf(imports@),
        interner.wf(),
        interner@.len() <= u32::MAX,
        pool_ready(old(pool)),
        hir.bindings_fit(old(pool)@.len()),
        forall|i: int| 0 <= i < imports@.len() ==> (#[trigger] imports@[i]).hir.bindings_fit(old(pool)@.len()),
        imports@.len() < u32::MAX,
    ensures
        pool_ready(final(pool)),
        pool_extends(old(pool)@, final(pool)@),
        r.signatures.wf(),
        entries_valid(r.signatures, final(pool)@.len()),
        r.signatures.file_view() == Some(file),
        forall|i: int| 0 <= i < hir.items@.len() ==> #[trigger] finished_recorded(hir, file, final(pool)@, r.signatures, i),
        r.types.wf(),
        types_fit(r.types, final(pool)@.len()),
        plain_signature_file(hir) ==> emitted(Seq::empty(), r.diagnostics@, plain_signature_diags(hir, hir.items@.len() as nat)),
    decreases imports@.len(),
{
    let mut shallow: Vec<(&str, FileSignatures)> = Vec::new();
    let no_imports: Vec<ImportedFile> = Vec::new();
    let mut i: usize = 0;
    while i < imports.len()
        invariant
            i <= imports@.len(),
            imports@.len() < u32::MAX,
            imported_hirs_wf(imports@),
            interner.wf(),
            interner@.len() <= u32::MAX,
            pool_ready(pool),
            pool_extends(old(pool)@, pool@),
            hir.bindings_fit(pool@.len()),
            forall|k: int| 0 <= k < imports@.len() ==> (#[trigger] imports@[k]).hir.bindings_fit(pool@.len()),
            no_imports@.len() == 0,
            shallow@.len() == i,
            forall|k: int| 0 <= k < i ==> (#[trigger] shallow@[k]).1.wf() && entries_valid(shallow@[k].1, pool@.len()),
        decreases imports@.len() - i,
    {
        let imported = &imports[i];
        let ghost before = pool@.len();
        let output = file_signatures(imported.hir, imported.file, no_imports.as_slice(), pool, interner);
        proof {
            assert forall|k: int| 0 <= k < i implies (#[trigger] shallow@[k]).1.wf() && entries_valid(
                shallow@[k].1,
                pool@.len(),
            ) by {
                lemma_entries_valid_grow(shallow@[k].1, before, pool@.len());
            }
        }
        shallow.push((imported.name, output.signatures));
        i = i + 1;
    }
    let mut import_refs: Vec<(&str, &FileSignatures)> = Vec::new();
    let mut k: usize = 0;
    while k < shallow.len()
        invariant
            k <= shallow@.len(),
            import_refs@.len() == k,
            forall|m: int| 0 <= m < k ==> (#[trigger] import_refs@[m]).1 == &shallow@[m].1,
        decreases shallow@.len() - k,
    {
        import_refs.push((shallow[k].0, &shallow[k].1));
        k = k + 1;
    }
    let mut sigs = FileSignatures::new();
    sigs.set_file(file);
    let mut start = Pool::new();
    std::mem::swap(pool, &mut start);
    let mut ctx = Ctx::new(hir, file, interner, start, import_refs, sigs, Mode::Signatures);
    let n = hir.items.len();
    let mut index: usize = 0;
    while index < n
        invariant
            ctx.inv(),
            ctx.hir == hir,
            ctx.file == file,
            ctx.mode == Mode::Signatures,
            ctx.sigs.file_view() == Some(file),
            n == hir.items@.len(),
            index <= n,
            pool_extends(old(pool)@, ctx.pool@),
            ctx.in_progress@.len() == n,
            forall|i: int| 0 <= i < n ==> !#[trigger] ctx.in_progress@[i],
            ctx.finished@.len() == n,
            forall|i: int| 0 <= i < n ==> !#[trigger] ctx.finished@[i],
            ctx.diags@.len() == 0 || !plain_signature_file(hir),
            ctx.interner == interner,
        decreases n - index,
    {
        let item = &hir.items[index];
        match (item.name, &item.kind) {
            (Some(name), ItemKind::Struct { .. }) => {
                let decl = DeclId { file, index: index as u32 };
                let ty = ctx.intern_type(TypeItem::StructType(decl));
                let text = interner.text(name).to_owned();
                proof {
                    assert(ctx.pool@[ty as int] == crate::pool::Shape::Struct(decl));
                    assert(text@ == crate::hir::spec_text(interner@, name));
                }
                ctx.record_type_name(ty, text);
                ctx.record_entry(
                    name,
                    SigEntry { ty: TYPE, type_value: Some(ty), kind: SigKind::Struct, item: index as u32 },
                );
            },
            _ => {},
        }
        index = index + 1;
    }
    let mut index: usize = 0;
    while index < n
        invariant
            ctx.inv(),
            ctx.hir == hir,
            ctx.file == file,
            ctx.mode == Mode::Signatures,
            ctx.sigs.file_view() == Some(file),
            n == hir.items@.len(),
            index <= n,
            pool_extends(old(pool)@, ctx.pool@),
            forall|i: int| 0 <= i < index ==> #[trigger] ctx.finished@[i] || hir.items@[i].name is None,
            ctx.finished@.len() == n,
            ctx.in_progress@.len() == n,
            forall|i: int| 0 <= i < n ==> !#[trigger] ctx.in_progress@[i],
            plain_signature_file(hir) ==> emitted(Seq::empty(), ctx.diags@, plain_signature_diags(hir, index as nat))
                && forall|i: int| index <= i < n ==> !#[trigger] ctx.finished@[i],
        decreases n - index,
    {
        let ghost before = ctx;
        ctx.item_signature(index as u32);
        proof {
            if plain_signature_file(hir) {
                assert(plain_item_diags(hir, index as int) is Some);
                if hir.items@[index as int].name is Some {
                    lemma_emitted_trans(
                        Seq::empty(),
                        before.diags@,
                        ctx.diags@,
                        plain_signature_diags(hir, index as nat),
                        plain_item_diags(hir, index as int)->0,
                    );
                } else {
                    assert(plain_item_diags(hir, index as int)->0 =~= Seq::<(crate::ctx::Code, crate::hir::Span)>::empty());
                    assert(plain_signature_diags(hir, index as nat) + plain_item_diags(hir, index as int)->0
                        =~= plain_signature_diags(hir, index as nat));
                }
                assert(plain_signature_diags(hir, (index + 1) as nat) == plain_signature_diags(hir, index as nat)
                    + plain_item_diags(hir, index as int)->0);
            }
            assert(!before.in_progress@[index as int]);
            assert(ctx.finished@[index as int] || hir.items@[index as int].name is None);
            assert forall|i: int| 0 <= i < index + 1 implies #[trigger] ctx.finished@[i] || hir.items@[i].name is None by {
                if i < index && before.finished@[i] {
                    assert(ctx.finished@[i]);
                }
            }
        }
        index = index + 1;
    }
    proof {
        assert forall|i: int| 0 <= i < hir.items@.len() implies #[trigger] finished_recorded(hir, file, ctx.pool@, ctx.sigs, i) by {
            if hir.items@[i].name is Some {
                assert(ctx.finished@[i]);
            }
        }
    }
    let Ctx { pool: finished_pool, sigs: signatures, types, diags, .. } = ctx;
    *pool = finished_pool;
    SignatureOutput { signatures, types, diagnostics: diags }
}

} // verus!
