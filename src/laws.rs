//! Laws of the fingerprint pass, stated over its mathematical model.
use vstd::prelude::*;
use crate::fingerprint::{
    decimal, file_modules, file_renames, files_view, first_pass_post, renames_match, run_modules, salt, scan,
    start, step, table_matches, Loc, ModuleMap, ModuleRecord, Node, PassOne, RenameInstruction, Role, Scan,
};
use crate::plan::{all_resolved, declared, has_fingerprint};

verus! {

/// Two module tables that hold the same module map declare the same names
/// with the same fingerprints and the same redefinition flags.
proof fn lemma_same_map_same_table(t1: Seq<ModuleRecord>, t2: Seq<ModuleRecord>, m: ModuleMap)
    requires
        table_matches(t1, m),
        table_matches(t2, m),
    ensures
        forall|k: Seq<u8>| declared(t1, k) == declared(t2, k),
        forall|k: Seq<u8>, fp: u32| has_fingerprint(t1, k, fp) == has_fingerprint(t2, k, fp),
{
    assert forall|k: Seq<u8>, fp: u32| has_fingerprint(t1, k, fp) implies has_fingerprint(t2, k, fp) by {
        let i = choose|i: int| 0 <= i < t1.len() && t1[i].name@ == k && t1[i].fingerprint == fp;
        assert(t1[i] == t1[i]);
        assert(m.fingerprints.contains_key(k));
        let j = choose|j: int| 0 <= j < t2.len() && t2[j].name@ == k;
        assert(t2[j] == t2[j]);
    }
    assert forall|k: Seq<u8>, fp: u32| has_fingerprint(t2, k, fp) implies has_fingerprint(t1, k, fp) by {
        let i = choose|i: int| 0 <= i < t2.len() && t2[i].name@ == k && t2[i].fingerprint == fp;
        assert(t2[i] == t2[i]);
        assert(m.fingerprints.contains_key(k));
        let j = choose|j: int| 0 <= j < t1.len() && t1[j].name@ == k;
        assert(t1[j] == t1[j]);
    }
    assert forall|k: Seq<u8>| declared(t1, k) implies declared(t2, k) by {
        let i = choose|i: int| 0 <= i < t1.len() && t1[i].name@ == k;
        assert(m.fingerprints.contains_key(k));
    }
    assert forall|k: Seq<u8>| declared(t2, k) implies declared(t1, k) by {
        let i = choose|i: int| 0 <= i < t2.len() && t2[i].name@ == k;
        assert(m.fingerprints.contains_key(k));
    }
}

/// Two runs of the fingerprint pass over the same files, under the same
/// package and revision, give the same module fingerprints and the same
/// rename tables.
pub proof fn lemma_pass_deterministic(pkg: Seq<u8>, rev: nat, files: Seq<Vec<Node>>, r1: PassOne, r2: PassOne)
    requires
        first_pass_post(pkg, rev, files, r1),
        first_pass_post(pkg, rev, files, r2),
    ensures
        forall|k: Seq<u8>| declared(r1.modules@, k) == declared(r2.modules@, k),
        forall|k: Seq<u8>, fp: u32|
            has_fingerprint(r1.modules@, k, fp) == has_fingerprint(r2.modules@, k, fp),
        r1.renames@.len() == r2.renames@.len(),
        forall|i: int, l: Loc, n: Seq<u8>, role: Role| 0 <= i < files.len() ==> #[trigger] renamed(
            r1.renames@[i]@,
            l,
            n,
            role,
        ) == renamed(r2.renames@[i]@, l, n, role),
{
    lemma_same_map_same_table(r1.modules@, r2.modules@, run_modules(files_view(files), salt(pkg, rev)));
    assert forall|i: int, l: Loc, n: Seq<u8>, role: Role| 0 <= i < files.len() implies #[trigger] renamed(
        r1.renames@[i]@,
        l,
        n,
        role,
    ) == renamed(r2.renames@[i]@, l, n, role) by {
        let m = file_renames(run_modules(files_view(files).take(i), salt(pkg, rev)), files[i]@, salt(pkg, rev));
        lemma_renamed_in_map(r1.renames@[i]@, m, l, n, role);
        lemma_renamed_in_map(r2.renames@[i]@, m, l, n, role);
    }
}

/// The instructions replace the span `l` by a name of module `n` in role
/// `role`.
pub open spec fn renamed(v: Seq<RenameInstruction>, l: Loc, n: Seq<u8>, role: Role) -> bool {
    exists|j: int| 0 <= j < v.len() && v[j].loc == l && v[j].name@ == n && v[j].role == role
}

proof fn lemma_renamed_in_map(v: Seq<RenameInstruction>, m: Map<Loc, (Seq<u8>, Role)>, l: Loc, n: Seq<u8>, role: Role)
    requires
        renames_match(v, m),
    ensures
        renamed(v, l, n, role) == (m.contains_key(l) && m[l] == (n, role)),
{
    if renamed(v, l, n, role) {
        let j = choose|j: int| 0 <= j < v.len() && v[j].loc == l && v[j].name@ == n && v[j].role == role;
        assert(v[j] == v[j]);
    }
    if m.contains_key(l) && m[l] == (n, role) {
        let j = choose|j: int| 0 <= j < v.len() && v[j].loc == l;
        assert(v[j] == v[j]);
    }
}

proof fn lemma_decimal_nonempty(n: nat)
    ensures
        decimal(n).len() >= 1,
        n >= 10 ==> decimal(n).len() >= 2,
    decreases n,
{
    if n >= 10 {
        lemma_decimal_nonempty(n / 10);
    }
}

/// Distinct revisions are written with distinct digits.
pub proof fn lemma_decimal_injective(a: nat, b: nat)
    requires
        decimal(a) == decimal(b),
    ensures
        a == b,
    decreases a,
{
    lemma_decimal_nonempty(a);
    lemma_decimal_nonempty(b);
    if a >= 10 && b >= 10 {
        assert(decimal(a).drop_last() =~= decimal(a / 10));
        assert(decimal(b).drop_last() =~= decimal(b / 10));
        assert(decimal(a).last() == decimal(b).last());
        lemma_decimal_injective(a / 10, b / 10);
        assert(decimal(a).last() == (a % 10 + 48) as u8);
        assert(decimal(b).last() == (b % 10 + 48) as u8);
        assert(a % 10 == b % 10);
        assert(a == (a / 10) * 10 + a % 10) by (nonlinear_arith);
        assert(b == (b / 10) * 10 + b % 10) by (nonlinear_arith);
    } else if a < 10 && b < 10 {
        assert(decimal(a)[0] == (a + 48) as u8);
        assert(decimal(b)[0] == (b + 48) as u8);
    } else if a < 10 {
        assert(decimal(a).len() == 1);
    } else {
        assert(decimal(b).len() == 1);
    }
}

/// The same module body under two salts that differ only in the package,
/// or only in the revision, is checksummed from different bytes.
pub proof fn lemma_salt_separates(pkg1: Seq<u8>, rev1: nat, pkg2: Seq<u8>, rev2: nat, body: Seq<u8>)
    requires
        (pkg1 != pkg2 && rev1 == rev2) || (pkg1 == pkg2 && rev1 != rev2),
    ensures
        salt(pkg1, rev1) + body != salt(pkg2, rev2) + body,
{
    let a = salt(pkg1, rev1);
    let b = salt(pkg2, rev2);
    if a + body == b + body {
        assert((a + body).len() == a.len() + body.len());
        assert((b + body).len() == b.len() + body.len());
        assert(a.len() == b.len());
        assert(a =~= (a + body).take(a.len() as int));
        assert(b =~= (b + body).take(b.len() as int));
        if rev1 == rev2 {
            assert(pkg1 =~= a.take(pkg1.len() as int));
            assert(pkg2 =~= b.take(pkg2.len() as int));
        } else {
            assert(decimal(rev1) =~= a.skip(pkg1.len() as int));
            assert(decimal(rev2) =~= b.skip(pkg2.len() as int));
            lemma_decimal_injective(rev1, rev2);
        }
    }
}

proof fn lemma_scan_append(s: Scan, a: Seq<Node>, b: Seq<Node>, salt: Seq<u8>)
    ensures
        scan(s, a + b, salt) == scan(scan(s, a, salt), b, salt),
    decreases b.len(),
{
    if b.len() == 0 {
        assert(a + b =~= a);
    } else {
        assert((a + b).drop_last() =~= a + b.drop_last());
        assert((a + b).last() == b.last());
        lemma_scan_append(s, a, b.drop_last(), salt);
    }
}

/// The node is a lexical unit at span `l`.
pub open spec fn token_at(n: Node, l: Loc) -> bool {
    match n {
        Node::Token { loc, .. } => loc == l,
        _ => false,
    }
}

/// `a` is `b` with the span `l` also known as blank.
spec fn blank_extended(a: Scan, b: Scan, l: Loc) -> bool {
    &&& a.mods == b.mods
    &&& a.current == b.current
    &&& a.acc == b.acc
    &&& a.renames == b.renames
    &&& a.blanks == b.blanks.insert(l)
}

proof fn lemma_scan_blank_extended(a: Scan, b: Scan, l: Loc, nodes: Seq<Node>, salt: Seq<u8>)
    requires
        blank_extended(a, b, l),
        forall|j: int| 0 <= j < nodes.len() ==> !token_at(#[trigger] nodes[j], l),
    ensures
        blank_extended(scan(a, nodes, salt), scan(b, nodes, salt), l),
    decreases nodes.len(),
{
    if nodes.len() > 0 {
        let rest = nodes.drop_last();
        assert forall|j: int| 0 <= j < rest.len() implies !token_at(#[trigger] rest[j], l) by {
            assert(rest[j] == nodes[j]);
        }
        lemma_scan_blank_extended(a, b, l, rest, salt);
        let x = scan(a, rest, salt);
        let y = scan(b, rest, salt);
        let n = nodes.last();
        assert(!token_at(nodes[nodes.len() - 1], l));
        match n {
            Node::Blank { loc } => {
                assert(x.blanks.insert(loc) =~= y.blanks.insert(loc).insert(l));
            },
            _ => {},
        }
    }
}

/// A whitespace or comment span inserted anywhere in a file changes neither
/// the module map nor the rename table, so long as no later lexical unit of
/// the file stands at the same span.
pub proof fn lemma_blank_span_invisible(
    mods: ModuleMap,
    pre: Seq<Node>,
    post: Seq<Node>,
    l: Loc,
    text: Vec<u8>,
    salt: Seq<u8>,
)
    requires
        forall|j: int| 0 <= j < post.len() ==> !token_at(#[trigger] post[j], l),
    ensures
        file_modules(mods, pre + seq![Node::Blank { loc: l }, Node::Token { loc: l, text }] + post, salt)
            == file_modules(mods, pre + post, salt),
        file_renames(mods, pre + seq![Node::Blank { loc: l }, Node::Token { loc: l, text }] + post, salt)
            == file_renames(mods, pre + post, salt),
{
    let w = seq![Node::Blank { loc: l }, Node::Token { loc: l, text }];
    let s = scan(start(mods), pre, salt);
    lemma_scan_append(start(mods), pre + w, post, salt);
    lemma_scan_append(start(mods), pre, w, salt);
    lemma_scan_append(start(mods), pre, post, salt);
    assert(w.drop_last() =~= seq![Node::Blank { loc: l }]);
    assert(w.drop_last().drop_last() =~= Seq::<Node>::empty());
    let sw = scan(s, w, salt);
    assert(scan(s, w.drop_last().drop_last(), salt) == s);
    let s1 = scan(s, w.drop_last(), salt);
    assert(w.drop_last().last() == Node::Blank { loc: l });
    assert(s1 == step(s, Node::Blank { loc: l }, salt));
    assert(s1.blanks.contains(l));
    assert(w.last() == Node::Token { loc: l, text });
    assert(sw == step(s1, Node::Token { loc: l, text }, salt));
    assert(sw == s1);
    assert(blank_extended(sw, s, l));
    lemma_scan_blank_extended(sw, s, l, post, salt);
}

/// The rename instruction that a node gives, if any.
pub open spec fn rename_entry(n: Node) -> Option<(Loc, (Seq<u8>, Role))> {
    match n {
        Node::Instance { loc, name } => Some((loc, (name@, Role::Reference))),
        Node::Declaration { loc, name } => Some((loc, (name@, Role::Declaration))),
        _ => None,
    }
}

/// The node gives a rename instruction for the span `l`.
pub open spec fn writes_span(n: Node, l: Loc) -> bool {
    match rename_entry(n) {
        Some(x) => x.0 == l,
        None => false,
    }
}

proof fn lemma_step_renames(s: Scan, n: Node, salt: Seq<u8>)
    ensures
        step(s, n, salt).renames == match rename_entry(n) {
            Some(x) => s.renames.insert(x.0, x.1),
            None => s.renames,
        },
{
}

proof fn lemma_scan_keeps_entry(s: Scan, nodes: Seq<Node>, salt: Seq<u8>, j: int, l: Loc, e: (Seq<u8>, Role))
    requires
        0 <= j < nodes.len(),
        rename_entry(nodes[j]) == Some((l, e)),
        forall|k: int| j < k < nodes.len() ==> !writes_span(#[trigger] nodes[k], l),
    ensures
        scan(s, nodes, salt).renames.contains_key(l),
        scan(s, nodes, salt).renames[l] == e,
    decreases nodes.len(),
{
    let rest = nodes.drop_last();
    lemma_step_renames(scan(s, rest, salt), nodes.last(), salt);
    if j < nodes.len() - 1 {
        assert forall|k: int| j < k < rest.len() implies !writes_span(#[trigger] rest[k], l) by {
            assert(rest[k] == nodes[k]);
        }
        assert(rest[j] == nodes[j]);
        lemma_scan_keeps_entry(s, rest, salt, j, l, e);
        assert(!writes_span(nodes[nodes.len() - 1], l));
    }
}

/// In a file's rename table, the name of every module declaration stands as
/// a Declaration and the module name of every instantiation as a Reference,
/// unless a later node of the same file names a module at the same span;
/// no span stands twice, so none has two roles.
pub proof fn lemma_role_partition(
    pkg: Seq<u8>,
    rev: nat,
    files: Seq<Vec<Node>>,
    r: PassOne,
    i: int,
    j: int,
    l: Loc,
    e: (Seq<u8>, Role),
)
    requires
        first_pass_post(pkg, rev, files, r),
        0 <= i < files.len(),
        0 <= j < files[i]@.len(),
        rename_entry(files[i]@[j]) == Some((l, e)),
        forall|k: int| j < k < files[i]@.len() ==> !writes_span(#[trigger] files[i]@[k], l),
    ensures
        renamed(r.renames@[i]@, l, e.0, e.1),
        forall|a: int, b: int| 0 <= a < b < r.renames@[i]@.len() ==> r.renames@[i]@[a].loc != r.renames@[i]@[b].loc,
{
    let sd = salt(pkg, rev);
    let mods = run_modules(files_view(files).take(i), sd);
    assert(r.renames@[i] == r.renames@[i]);
    lemma_scan_keeps_entry(start(mods), files[i]@, sd, j, l, e);
    lemma_renamed_in_map(r.renames@[i]@, file_renames(mods, files[i]@, sd), l, e.0, e.1);
}

proof fn lemma_entry_from_node(s: Scan, nodes: Seq<Node>, salt: Seq<u8>, l: Loc)
    requires
        s.renames == Map::<Loc, (Seq<u8>, Role)>::empty(),
        scan(s, nodes, salt).renames.contains_key(l),
    ensures
        exists|j: int| 0 <= j < nodes.len() && rename_entry(#[trigger] nodes[j]) == Some((l, scan(s, nodes, salt).renames[l])),
    decreases nodes.len(),
{
    let rest = nodes.drop_last();
    lemma_step_renames(scan(s, rest, salt), nodes.last(), salt);
    if writes_span(nodes.last(), l) {
        assert(rename_entry(nodes[nodes.len() - 1]) == Some((l, scan(s, nodes, salt).renames[l])));
    } else {
        lemma_entry_from_node(s, rest, salt, l);
        let j = choose|j: int| 0 <= j < rest.len() && rename_entry(#[trigger] rest[j]) == Some((l, scan(s, rest, salt).renames[l]));
        assert(nodes[j] == rest[j]);
    }
}

/// The node declares a module of this name.
pub open spec fn declares(n: Node, name: Seq<u8>) -> bool {
    match n {
        Node::Declaration { name: m, .. } => m@ == name,
        _ => false,
    }
}

/// The node instantiates a module of this name.
pub open spec fn instantiates(n: Node, name: Seq<u8>) -> bool {
    match n {
        Node::Instance { name: m, .. } => m@ == name,
        _ => false,
    }
}

/// The name has a fingerprint, or is the module whose scope is open.
spec fn covered(s: Scan, name: Seq<u8>) -> bool {
    s.mods.fingerprints.contains_key(name) || s.current == Some(name)
}

proof fn lemma_scan_covers(s: Scan, nodes: Seq<Node>, salt: Seq<u8>, name: Seq<u8>)
    requires
        covered(s, name) || exists|j: int| 0 <= j < nodes.len() && declares(#[trigger] nodes[j], name),
    ensures
        covered(scan(s, nodes, salt), name),
    decreases nodes.len(),
{
    if nodes.len() > 0 {
        let rest = nodes.drop_last();
        if !declares(nodes.last(), name) {
            if !covered(s, name) {
                let j = choose|j: int| 0 <= j < nodes.len() && declares(#[trigger] nodes[j], name);
                assert(j < nodes.len() - 1);
                assert(rest[j] == nodes[j]);
            }
            lemma_scan_covers(s, rest, salt, name);
        }
    }
}

proof fn lemma_run_declares(files: Seq<Seq<Node>>, salt: Seq<u8>, name: Seq<u8>)
    requires
        exists|i: int, j: int| 0 <= i < files.len() && 0 <= j < files[i].len() && declares(#[trigger] files[i][j], name),
    ensures
        run_modules(files, salt).fingerprints.contains_key(name),
    decreases files.len(),
{
    let rest = files.drop_last();
    let before = run_modules(rest, salt);
    let (i, j) = choose|i: int, j: int| 0 <= i < files.len() && 0 <= j < files[i].len() && declares(#[trigger] files[i][j], name);
    if i < files.len() - 1 {
        assert(rest[i] == files[i]);
        assert(declares(rest[i][j], name));
        lemma_run_declares(rest, salt, name);
    } else {
        assert(declares(files.last()[j], name));
    }
    lemma_scan_covers(start(before), files.last(), salt, name);
}

/// When every instantiation in the files names a module that some file of
/// the set declares, in whatever order the files come, every rename
/// instruction of the fingerprint pass resolves.
pub proof fn lemma_declared_references_resolve(pkg: Seq<u8>, rev: nat, files: Seq<Vec<Node>>, r: PassOne)
    requires
        first_pass_post(pkg, rev, files, r),
        forall|i: int, j: int, name: Seq<u8>|
            0 <= i < files.len() && 0 <= j < files[i]@.len() && #[trigger] instantiates(files[i]@[j], name)
                ==> exists|i2: int, j2: int|
                0 <= i2 < files.len() && 0 <= j2 < files[i2]@.len() && declares(#[trigger] files[i2]@[j2], name),
    ensures
        all_resolved(r.modules@, r.renames@),
{
    let sd = salt(pkg, rev);
    let fv = files_view(files);
    let final_mods = run_modules(fv, sd);
    assert forall|i: int, k: int| 0 <= i < r.renames@.len() && 0 <= k < r.renames@[i]@.len()
        implies #[trigger] declared(r.modules@, r.renames@[i]@[k].name@) by {
        let v = r.renames@[i]@;
        let ins = v[k];
        let mods = run_modules(fv.take(i), sd);
        let m = file_renames(mods, files[i]@, sd);
        assert(renames_match(v, m));
        assert(v[k] == ins);
        assert(m.contains_key(ins.loc));
        lemma_entry_from_node(start(mods), files[i]@, sd, ins.loc);
        let j = choose|j: int| 0 <= j < files[i]@.len() && rename_entry(#[trigger] files[i]@[j]) == Some((ins.loc, m[ins.loc]));
        let name = ins.name@;
        assert(fv[i] == files[i]@);
        if instantiates(files[i]@[j], name) {
            let (i2, j2) = choose|i2: int, j2: int|
                0 <= i2 < files.len() && 0 <= j2 < files[i2]@.len() && declares(#[trigger] files[i2]@[j2], name);
            assert(fv[i2] == files[i2]@);
            assert(declares(fv[i2][j2], name));
        } else {
            assert(declares(fv[i][j], name));
        }
        lemma_run_declares(fv, sd, name);
        assert(final_mods.fingerprints.contains_key(name));
    }
}

} // verus!
