//! Pass 2 planning: every rename instruction resolved against the module
//! table.
use vstd::prelude::*;
use vstd::multiset::Multiset;
use crate::config::Parameter;
use crate::fingerprint::{first_pass, first_pass_post, Loc, ModuleRecord, Node, PassOne, RenameInstruction, Role};

verus! {

/// A span to replace, the module it names, and that module's fingerprint.
#[derive(Clone, Debug)]
pub struct Patch {
    pub loc: Loc,
    pub name: Vec<u8>,
    pub role: Role,
    pub fingerprint: u32,
}

/// An instantiation names a module that no file of the set declares.
#[derive(Clone, Debug)]
pub struct UnresolvedReference {
    /// The index of the file that holds the instantiation.
    pub file: usize,
    pub loc: Loc,
    pub name: Vec<u8>,
}

pub open spec fn declared(t: Seq<ModuleRecord>, name: Seq<u8>) -> bool {
    exists|k: int| 0 <= k < t.len() && t[k].name@ == name
}

pub open spec fn has_fingerprint(t: Seq<ModuleRecord>, name: Seq<u8>, fp: u32) -> bool {
    exists|k: int| 0 <= k < t.len() && t[k].name@ == name && t[k].fingerprint == fp
}

/// Every instruction of every file names a module of the table.
pub open spec fn all_resolved(t: Seq<ModuleRecord>, renames: Seq<Vec<RenameInstruction>>) -> bool {
    forall|i: int, j: int| 0 <= i < renames.len() && 0 <= j < renames[i]@.len()
        ==> #[trigger] declared(t, renames[i]@[j].name@)
}

/// The patch is the instruction with the fingerprint of the module it names.
pub open spec fn patch_of(t: Seq<ModuleRecord>, r: RenameInstruction, p: Patch) -> bool {
    &&& p.loc == r.loc
    &&& p.name@ == r.name@
    &&& p.role == r.role
    &&& has_fingerprint(t, r.name@, p.fingerprint)
}

/// What `resolve` returns for a table and the files' instructions.
pub open spec fn resolve_post(
    t: Seq<ModuleRecord>,
    renames: Seq<Vec<RenameInstruction>>,
    r: Result<Vec<Vec<Patch>>, UnresolvedReference>,
) -> bool {
    match r {
        Ok(p) => {
            &&& all_resolved(t, renames)
            &&& p@.len() == renames.len()
            &&& forall|i: int| #![trigger p@[i]] 0 <= i < renames.len() ==> p@[i]@.len() == renames[i]@.len()
            &&& forall|i: int, j: int| 0 <= i < renames.len() && 0 <= j < renames[i]@.len()
                ==> #[trigger] patch_of(t, renames[i]@[j], p@[i]@[j])
        },
        Err(e) => {
            &&& !all_resolved(t, renames)
            &&& e.file < renames.len()
            &&& forall|a: int, b: int| 0 <= a < e.file && 0 <= b < renames[a]@.len()
                ==> #[trigger] declared(t, renames[a]@[b].name@)
            &&& exists|j: int| 0 <= j < renames[e.file as int]@.len()
                && renames[e.file as int]@[j].loc == e.loc
                && renames[e.file as int]@[j].name@ == e.name@
                && !declared(t, e.name@)
                && forall|b: int| 0 <= b < j ==> #[trigger] declared(t, renames[e.file as int]@[b].name@)
        },
    }
}

fn lookup(t: &Vec<ModuleRecord>, name: &Vec<u8>) -> (r: Option<u32>)
    ensures
        match r {
            Some(fp) => has_fingerprint(t@, name@, fp),
            None => !declared(t@, name@),
        },
{
    let mut i: usize = 0;
    while i < t.len()
        invariant
            i <= t.len(),
            forall|k: int| 0 <= k < i ==> t@[k].name@ != name@,
        decreases t.len() - i,
    {
        if crate::fingerprint::bytes_eq(&t[i].name, name) {
            assert(t@[i as int].name@ == name@);
            return Some(t[i].fingerprint);
        }
        i += 1;
    }
    None
}

/// Resolves every rename instruction against the module table. Fails
/// exactly when an instruction names a module that is not in the table, and
/// then names the first such instruction, in file order.
pub fn resolve(pass: &PassOne) -> (r: Result<Vec<Vec<Patch>>, UnresolvedReference>)
    ensures
        resolve_post(pass.modules@, pass.renames@, r),
{
    let t = &pass.modules;
    let ghost rs = pass.renames@;
    let mut out: Vec<Vec<Patch>> = Vec::new();
    let mut i: usize = 0;
    while i < pass.renames.len()
        invariant
            rs == pass.renames@,
            t == &pass.modules,
            i <= rs.len(),
            out@.len() == i,
            forall|a: int| #![trigger out@[a]] 0 <= a < i ==> out@[a]@.len() == rs[a]@.len(),
            forall|a: int, b: int| 0 <= a < i && 0 <= b < rs[a]@.len()
                ==> #[trigger] patch_of(t@, rs[a]@[b], out@[a]@[b]),
            forall|a: int, b: int| 0 <= a < i && 0 <= b < rs[a]@.len()
                ==> #[trigger] declared(t@, rs[a]@[b].name@),
        decreases rs.len() - i,
    {
        let file = &pass.renames[i];
        let mut ps: Vec<Patch> = Vec::new();
        let mut j: usize = 0;
        while j < file.len()
            invariant
                rs == pass.renames@,
                t == &pass.modules,
                i < rs.len(),
                file@ == rs[i as int]@,
                j <= file.len(),
                ps@.len() == j,
                forall|b: int| 0 <= b < j ==> #[trigger] patch_of(t@, file@[b], ps@[b]),
                forall|b: int| 0 <= b < j ==> #[trigger] declared(t@, file@[b].name@),
                forall|a: int, b: int| 0 <= a < i && 0 <= b < rs[a]@.len()
                    ==> #[trigger] declared(t@, rs[a]@[b].name@),
            decreases file.len() - j,
        {
            let ins = &file[j];
            match lookup(t, &ins.name) {
                Some(fp) => {
                    let name = crate::fingerprint::copy_bytes(&ins.name);
                    let p = Patch { loc: ins.loc, name, role: ins.role, fingerprint: fp };
                    ps.push(p);
                    assert(patch_of(t@, file@[j as int], ps@[j as int]));
                },
                None => {
                    let e = UnresolvedReference {
                        file: i,
                        loc: ins.loc,
                        name: crate::fingerprint::copy_bytes(&ins.name),
                    };
                    assert(!declared(t@, rs[i as int]@[j as int].name@));
                    assert(forall|b: int| 0 <= b < j ==> #[trigger] declared(t@, rs[i as int]@[b].name@));
                    return Err(e);
                },
            }
            j += 1;
        }
        let ghost prev = out@;
        out.push(ps);
        assert forall|a: int, b: int| 0 <= a <= i && 0 <= b < rs[a]@.len()
            implies #[trigger] patch_of(t@, rs[a]@[b], out@[a]@[b]) by {
            if a < i {
                assert(out@[a] == prev[a]);
            }
        }
        i += 1;
    }
    Ok(out)
}

/// Both passes over the files of a run: the fingerprint pass under the
/// configuration's package and revision, then the resolution of its rename
/// instructions.
pub fn rewrite(p: &Parameter, files: &Vec<Vec<Node>>) -> (r: (PassOne, Result<Vec<Vec<Patch>>, UnresolvedReference>))
    ensures
        first_pass_post(p.pkg@, p.rev as nat, files@, r.0),
        resolve_post(r.0.modules@, r.0.renames@, r.1),
{
    let pass = first_pass(&p.pkg, p.rev, files);
    let patches = resolve(&pass);
    (pass, patches)
}

/// A file's patches in the order in which a rewrite applies them: from the
/// highest offset to the lowest, so that replacing one span never moves a
/// span still to be replaced.
pub fn application_order(ps: Vec<Patch>) -> (r: Vec<Patch>)
    ensures
        r@.to_multiset() == ps@.to_multiset(),
        forall|i: int, j: int| 0 <= i < j < r@.len() ==> r@[i].loc.offset >= r@[j].loc.offset,
{
    broadcast use vstd::seq_lib::group_to_multiset_ensures, vstd::multiset::group_multiset_axioms;

    let mut rest = ps;
    let mut out: Vec<Patch> = Vec::new();
    while rest.len() > 0
        invariant
            out@.to_multiset().add(rest@.to_multiset()) == ps@.to_multiset(),
            forall|i: int, j: int| 0 <= i < j < out@.len() ==> out@[i].loc.offset >= out@[j].loc.offset,
        decreases rest.len(),
    {
        let ghost before = rest@;
        let p = rest.pop().unwrap();
        assert(before =~= rest@.push(p));
        let mut k: usize = 0;
        while k < out.len() && out[k].loc.offset >= p.loc.offset
            invariant
                k <= out.len(),
                forall|i: int| 0 <= i < k ==> out@[i].loc.offset >= p.loc.offset,
            decreases out.len() - k,
        {
            k += 1;
        }
        let ghost prev = out@;
        out.insert(k, p);
        assert(out@ == prev.insert(k as int, p));
        proof {
            vstd::seq_lib::to_multiset_insert(prev, k as int, p);
            vstd::seq_lib::to_multiset_build(rest@, p);
        }
        assert(out@.to_multiset() == prev.to_multiset().insert(p));
        assert(before.to_multiset() == rest@.to_multiset().insert(p));
        assert(out@.to_multiset().add(rest@.to_multiset()) =~= prev.to_multiset().add(before.to_multiset()));
        assert forall|i: int, j: int| 0 <= i < j < out@.len() implies out@[i].loc.offset >= out@[j].loc.offset by {
            if k < out@.len() - 1 && j > k {
                assert(prev[k as int].loc.offset < p.loc.offset);
            }
        }
    }
    assert(rest@.to_multiset() =~= Multiset::empty());
    assert(out@.to_multiset().add(Multiset::empty()) =~= out@.to_multiset());
    out
}

} // verus!
