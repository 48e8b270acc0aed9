//! The fingerprint pass: per-module salted checksums and the table of
//! identifier spans to rename.
use vstd::prelude::*;
use crate::checksum::{checksum, crc32_cksum};

verus! {

/// A span of source text: byte offset, byte length and line number.
#[derive(Clone, Copy, Debug, PartialEq, Eq, Structural, PartialOrd, Ord, Hash)]
pub struct Loc {
    pub offset: usize,
    pub len: usize,
    pub line: u32,
}

/// Whether an identifier span names a module where it is declared or where
/// it is instantiated.
#[derive(Clone, Copy, Debug, PartialEq, Eq, Structural)]
pub enum Role {
    Declaration,
    Reference,
}

/// One node of a parsed file, in the order in which a pre-order walk of the
/// syntax tree meets it.
#[derive(Clone, Debug)]
pub enum Node {
    /// A lexical unit with its exact source bytes.
    Token { loc: Loc, text: Vec<u8> },
    /// A whitespace or comment span; the lexical unit at this span is not
    /// significant.
    Blank { loc: Loc },
    /// The module identifier of an instantiation.
    Instance { loc: Loc, name: Vec<u8> },
    /// The start of a module declaration, with the span of its identifier.
    Declaration { loc: Loc, name: Vec<u8> },
}

/// A module with its sealed fingerprint, and whether it was declared more
/// than once.
#[derive(Clone, Debug)]
pub struct ModuleRecord {
    pub name: Vec<u8>,
    pub fingerprint: u32,
    pub redefined: bool,
}

/// An identifier span that the rewrite replaces, the module it names, and
/// the role of the span.
#[derive(Clone, Debug)]
pub struct RenameInstruction {
    pub loc: Loc,
    pub name: Vec<u8>,
    pub role: Role,
}

/// The module map as a mathematical value.
pub struct ModuleMap {
    pub fingerprints: Map<Seq<u8>, u32>,
    pub redefined: Set<Seq<u8>>,
}

/// The state of the walk over one file.
pub struct Scan {
    pub mods: ModuleMap,
    /// The module whose scope is open.
    pub current: Option<Seq<u8>>,
    /// The bytes fed to the open scope's checksum so far.
    pub acc: Seq<u8>,
    /// The spans known to be whitespace or comments.
    pub blanks: Set<Loc>,
    pub renames: Map<Loc, (Seq<u8>, Role)>,
}

/// The decimal digits of `n`, as ASCII bytes.
pub open spec fn decimal(n: nat) -> Seq<u8>
    decreases n,
{
    if n < 10 {
        seq![(n + 48) as u8]
    } else {
        decimal(n / 10).push((n % 10 + 48) as u8)
    }
}

/// The bytes that seed every module's checksum: the package name, then the
/// revision in decimal.
pub open spec fn salt(pkg: Seq<u8>, rev: nat) -> Seq<u8> {
    pkg + decimal(rev)
}

pub open spec fn empty_modules() -> ModuleMap {
    ModuleMap { fingerprints: Map::empty(), redefined: Set::empty() }
}

/// Closes the open scope, if any: its checksum becomes the module's current
/// fingerprint, and a name that already had one is marked redefined.
pub open spec fn seal(mods: ModuleMap, current: Option<Seq<u8>>, acc: Seq<u8>) -> ModuleMap {
    match current {
        None => mods,
        Some(m) => ModuleMap {
            fingerprints: mods.fingerprints.insert(m, crc32_cksum(acc)),
            redefined: if mods.fingerprints.contains_key(m) {
                mods.redefined.insert(m)
            } else {
                mods.redefined
            },
        },
    }
}

/// One node of the walk. A significant token adds its bytes to the open
/// scope; a declaration seals the open scope and opens one seeded with the
/// salt.
pub open spec fn step(s: Scan, n: Node, salt: Seq<u8>) -> Scan {
    match n {
        Node::Token { loc, text } => if s.blanks.contains(loc) {
            s
        } else {
            Scan { acc: s.acc + text@, ..s }
        },
        Node::Blank { loc } => Scan { blanks: s.blanks.insert(loc), ..s },
        Node::Instance { loc, name } => Scan {
            renames: s.renames.insert(loc, (name@, Role::Reference)),
            ..s
        },
        Node::Declaration { loc, name } => Scan {
            mods: seal(s.mods, s.current, s.acc),
            current: Some(name@),
            acc: salt,
            renames: s.renames.insert(loc, (name@, Role::Declaration)),
            ..s
        },
    }
}

/// The walk over a sequence of nodes.
pub open spec fn scan(s: Scan, nodes: Seq<Node>, salt: Seq<u8>) -> Scan
    decreases nodes.len(),
{
    if nodes.len() == 0 {
        s
    } else {
        step(scan(s, nodes.drop_last(), salt), nodes.last(), salt)
    }
}

pub open spec fn start(mods: ModuleMap) -> Scan {
    Scan { mods, current: None, acc: Seq::empty(), blanks: Set::empty(), renames: Map::empty() }
}

/// The module map after one file, whose last scope is sealed at its end.
pub open spec fn file_modules(mods: ModuleMap, nodes: Seq<Node>, salt: Seq<u8>) -> ModuleMap {
    let s = scan(start(mods), nodes, salt);
    seal(s.mods, s.current, s.acc)
}

/// The rename table of one file.
pub open spec fn file_renames(mods: ModuleMap, nodes: Seq<Node>, salt: Seq<u8>) -> Map<Loc, (Seq<u8>, Role)> {
    scan(start(mods), nodes, salt).renames
}

/// The module map after the files, taken in order.
pub open spec fn run_modules(files: Seq<Seq<Node>>, salt: Seq<u8>) -> ModuleMap
    decreases files.len(),
{
    if files.len() == 0 {
        empty_modules()
    } else {
        file_modules(run_modules(files.drop_last(), salt), files.last(), salt)
    }
}

pub open spec fn files_view(files: Seq<Vec<Node>>) -> Seq<Seq<Node>> {
    files.map_values(|v: Vec<Node>| v@)
}

pub open spec fn bytes_opt(o: Option<Vec<u8>>) -> Option<Seq<u8>> {
    match o {
        Some(v) => Some(v@),
        None => None,
    }
}

/// The records hold exactly the module map, one record per name.
pub open spec fn table_matches(t: Seq<ModuleRecord>, m: ModuleMap) -> bool {
    &&& forall|i: int, j: int| 0 <= i < j < t.len() ==> t[i].name@ != t[j].name@
    &&& forall|k: Seq<u8>| m.fingerprints.contains_key(k) <==> exists|i: int| 0 <= i < t.len() && t[i].name@ == k
    &&& forall|i: int| #![trigger t[i]] 0 <= i < t.len() ==> m.fingerprints[t[i].name@] == t[i].fingerprint
        && (m.redefined.contains(t[i].name@) == t[i].redefined)
    &&& m.redefined.subset_of(m.fingerprints.dom())
}

/// The instructions hold exactly the rename map, one per span.
pub open spec fn renames_match(v: Seq<RenameInstruction>, m: Map<Loc, (Seq<u8>, Role)>) -> bool {
    &&& forall|i: int, j: int| 0 <= i < j < v.len() ==> v[i].loc != v[j].loc
    &&& forall|l: Loc| m.contains_key(l) <==> exists|i: int| 0 <= i < v.len() && v[i].loc == l
    &&& forall|i: int| #![trigger v[i]] 0 <= i < v.len() ==> m[v[i].loc] == (v[i].name@, v[i].role)
}

pub(crate) fn bytes_eq(a: &Vec<u8>, b: &Vec<u8>) -> (r: bool)
    ensures
        r == (a@ == b@),
{
    if a.len() != b.len() {
        return false;
    }
    let mut i: usize = 0;
    while i < a.len()
        invariant
            a.len() == b.len(),
            i <= a.len(),
            forall|k: int| 0 <= k < i ==> a@[k] == b@[k],
        decreases a.len() - i,
    {
        if a[i] != b[i] {
            return false;
        }
        i += 1;
    }
    assert(a@ =~= b@);
    true
}

pub(crate) fn copy_bytes(a: &Vec<u8>) -> (r: Vec<u8>)
    ensures
        r@ == a@,
{
    let r = a.clone();
    assert(r@ =~= a@);
    r
}

fn find_module(t: &Vec<ModuleRecord>, name: &Vec<u8>) -> (r: Option<usize>)
    ensures
        match r {
            Some(i) => i < t.len() && t@[i as int].name@ == name@,
            None => forall|i: int| 0 <= i < t.len() ==> t@[i].name@ != name@,
        },
{
    let mut i: usize = 0;
    while i < t.len()
        invariant
            i <= t.len(),
            forall|k: int| 0 <= k < i ==> t@[k].name@ != name@,
        decreases t.len() - i,
    {
        if bytes_eq(&t[i].name, name) {
            return Some(i);
        }
        i += 1;
    }
    None
}

fn has_loc(v: &Vec<Loc>, l: Loc) -> (r: bool)
    ensures
        r == v@.contains(l),
{
    let mut i: usize = 0;
    while i < v.len()
        invariant
            i <= v.len(),
            forall|k: int| 0 <= k < i ==> v@[k] != l,
        decreases v.len() - i,
    {
        if v[i] == l {
            return true;
        }
        i += 1;
    }
    false
}

fn seal_module(table: &mut Vec<ModuleRecord>, name: Vec<u8>, acc: &Vec<u8>, Ghost(m): Ghost<ModuleMap>)
    requires
        table_matches(old(table)@, m),
    ensures
        table_matches(final(table)@, seal(m, Some(name@), acc@)),
{
    let fp = checksum(acc.as_slice());
    let ghost n = name@;
    let ghost m2 = seal(m, Some(n), acc@);
    match find_module(table, &name) {
        Some(i) => {
            assert(m.fingerprints.contains_key(n));
            table.set(i, ModuleRecord { name, fingerprint: fp, redefined: true });
            assert forall|k: Seq<u8>| m2.fingerprints.contains_key(k) implies exists|j: int|
                0 <= j < table@.len() && table@[j].name@ == k by {
                if k != n {
                    let j = choose|j: int| 0 <= j < old(table)@.len() && old(table)@[j].name@ == k;
                    assert(table@[j] == old(table)@[j]);
                } else {
                    assert(table@[i as int].name@ == k);
                }
            }
            assert forall|k: Seq<u8>| (exists|j: int| 0 <= j < table@.len() && table@[j].name@ == k)
                implies m2.fingerprints.contains_key(k) by {
                let j = choose|j: int| 0 <= j < table@.len() && table@[j].name@ == k;
                if j != i {
                    assert(old(table)@[j] == table@[j]);
                }
            }
        },
        None => {
            table.push(ModuleRecord { name, fingerprint: fp, redefined: false });
            assert forall|k: Seq<u8>| m2.fingerprints.contains_key(k) implies exists|j: int|
                0 <= j < table@.len() && table@[j].name@ == k by {
                if k != n {
                    let j = choose|j: int| 0 <= j < old(table)@.len() && old(table)@[j].name@ == k;
                    assert(table@[j] == old(table)@[j]);
                } else {
                    assert(table@[table@.len() - 1].name@ == k);
                }
            }
            assert forall|k: Seq<u8>| (exists|j: int| 0 <= j < table@.len() && table@[j].name@ == k)
                implies m2.fingerprints.contains_key(k) by {
                let j = choose|j: int| 0 <= j < table@.len() && table@[j].name@ == k;
                if j < old(table)@.len() {
                    assert(old(table)@[j] == table@[j]);
                }
            }
        },
    }
}

fn put_rename(
    v: &mut Vec<RenameInstruction>,
    loc: Loc,
    name: Vec<u8>,
    role: Role,
    Ghost(m): Ghost<Map<Loc, (Seq<u8>, Role)>>,
)
    requires
        renames_match(old(v)@, m),
    ensures
        renames_match(final(v)@, m.insert(loc, (name@, role))),
{
    let ghost m2 = m.insert(loc, (name@, role));
    let mut i: usize = 0;
    while i < v.len()
        invariant
            i <= v.len(),
            forall|k: int| 0 <= k < i ==> v@[k].loc != loc,
        ensures
            i <= v.len(),
            forall|k: int| 0 <= k < i ==> v@[k].loc != loc,
            i < v.len() ==> v@[i as int].loc == loc,
        decreases v.len() - i,
    {
        if v[i].loc == loc {
            break;
        }
        i += 1;
    }
    if i < v.len() {
        v.set(i, RenameInstruction { loc, name, role });
        assert forall|l: Loc| m2.contains_key(l) implies exists|j: int|
            0 <= j < v@.len() && v@[j].loc == l by {
            if l != loc {
                let j = choose|j: int| 0 <= j < old(v)@.len() && old(v)@[j].loc == l;
                assert(v@[j] == old(v)@[j]);
            } else {
                assert(v@[i as int].loc == l);
            }
        }
        assert forall|l: Loc| (exists|j: int| 0 <= j < v@.len() && v@[j].loc == l)
            implies m2.contains_key(l) by {
            let j = choose|j: int| 0 <= j < v@.len() && v@[j].loc == l;
            if j != i {
                assert(old(v)@[j] == v@[j]);
            }
        }
    } else {
        v.push(RenameInstruction { loc, name, role });
        assert forall|l: Loc| m2.contains_key(l) implies exists|j: int|
            0 <= j < v@.len() && v@[j].loc == l by {
            if l != loc {
                let j = choose|j: int| 0 <= j < old(v)@.len() && old(v)@[j].loc == l;
                assert(v@[j] == old(v)@[j]);
            } else {
                assert(v@[v@.len() - 1].loc == l);
            }
        }
        assert forall|l: Loc| (exists|j: int| 0 <= j < v@.len() && v@[j].loc == l)
            implies m2.contains_key(l) by {
            let j = choose|j: int| 0 <= j < v@.len() && v@[j].loc == l;
            if j < old(v)@.len() {
                assert(old(v)@[j] == v@[j]);
            }
        }
    }
}

/// Appends the decimal digits of `n` to `out`.
fn push_decimal(out: &mut Vec<u8>, n: usize)
    ensures
        final(out)@ == old(out)@ + decimal(n as nat),
    decreases n,
{
    if n >= 10 {
        push_decimal(out, n / 10);
    }
    out.push((n % 10) as u8 + 48);
    assert(final(out)@ =~= old(out)@ + decimal(n as nat));
}

/// The salt bytes for a package name and a revision.
pub fn salt_bytes(pkg: &Vec<u8>, rev: usize) -> (r: Vec<u8>)
    ensures
        r@ == salt(pkg@, rev as nat),
{
    let mut r = copy_bytes(pkg);
    push_decimal(&mut r, rev);
    r
}

/// Walks one file's nodes: updates the module table and returns the file's
/// rename instructions.
fn scan_nodes(
    salt: &Vec<u8>,
    table: &mut Vec<ModuleRecord>,
    nodes: &Vec<Node>,
    Ghost(m0): Ghost<ModuleMap>,
) -> (r: Vec<RenameInstruction>)
    requires
        table_matches(old(table)@, m0),
    ensures
        table_matches(final(table)@, file_modules(m0, nodes@, salt@)),
        renames_match(r@, file_renames(m0, nodes@, salt@)),
{
    let mut blanks: Vec<Loc> = Vec::new();
    let mut renames: Vec<RenameInstruction> = Vec::new();
    let mut current: Option<Vec<u8>> = None;
    let mut acc: Vec<u8> = Vec::new();
    let mut i: usize = 0;
    assert(nodes@.take(0) =~= Seq::<Node>::empty());
    while i < nodes.len()
        invariant
            i <= nodes.len(),
            table_matches(table@, scan(start(m0), nodes@.take(i as int), salt@).mods),
            renames_match(renames@, scan(start(m0), nodes@.take(i as int), salt@).renames),
            forall|l: Loc| #![trigger blanks@.contains(l)]
                scan(start(m0), nodes@.take(i as int), salt@).blanks.contains(l) == blanks@.contains(l),
            acc@ == scan(start(m0), nodes@.take(i as int), salt@).acc,
            bytes_opt(current) == scan(start(m0), nodes@.take(i as int), salt@).current,
        decreases nodes.len() - i,
    {
        let ghost s = scan(start(m0), nodes@.take(i as int), salt@);
        assert(nodes@.take(i + 1).drop_last() =~= nodes@.take(i as int));
        assert(nodes@.take(i + 1).last() == nodes@[i as int]);
        match &nodes[i] {
            Node::Token { loc, text } => {
                if !has_loc(&blanks, *loc) {
                    acc.extend_from_slice(text.as_slice());
                    assert(acc@ =~= s.acc + text@);
                }
            },
            Node::Blank { loc } => {
                let ghost prev = blanks@;
                blanks.push(*loc);
                assert forall|l: Loc| #![trigger blanks@.contains(l)]
                    s.blanks.insert(*loc).contains(l) == blanks@.contains(l) by {
                    if l != *loc && blanks@.contains(l) {
                        let k = choose|k: int| 0 <= k < blanks@.len() && blanks@[k] == l;
                        assert(k < blanks@.len() - 1);
                        assert(prev.contains(l)) by {
                            assert(prev[k] == l);
                        }
                    }
                    if prev.contains(l) {
                        let k = choose|k: int| 0 <= k < prev.len() && prev[k] == l;
                        assert(blanks@[k] == l);
                    }
                    if l == *loc {
                        assert(blanks@[blanks@.len() - 1] == l);
                    }
                }
            },
            Node::Instance { loc, name } => {
                put_rename(&mut renames, *loc, copy_bytes(name), Role::Reference, Ghost(s.renames));
            },
            Node::Declaration { loc, name } => {
                put_rename(&mut renames, *loc, copy_bytes(name), Role::Declaration, Ghost(s.renames));
                match current {
                    Some(m) => {
                        seal_module(table, m, &acc, Ghost(s.mods));
                    },
                    None => {},
                }
                current = Some(copy_bytes(name));
                acc = copy_bytes(salt);
            },
        }
        i += 1;
    }
    assert(nodes@.take(nodes@.len() as int) =~= nodes@);
    match current {
        Some(m) => {
            seal_module(table, m, &acc, Ghost(scan(start(m0), nodes@, salt@).mods));
        },
        None => {},
    }
    renames
}

/// The outcome of the fingerprint pass: the module table, and for each file,
/// at the same index, its rename instructions.
pub struct PassOne {
    pub modules: Vec<ModuleRecord>,
    pub renames: Vec<Vec<RenameInstruction>>,
}

/// What `first_pass` returns: the module table of the whole run, and each
/// file's rename table.
pub open spec fn first_pass_post(pkg: Seq<u8>, rev: nat, files: Seq<Vec<Node>>, r: PassOne) -> bool {
    &&& table_matches(r.modules@, run_modules(files_view(files), salt(pkg, rev)))
    &&& r.renames@.len() == files.len()
    &&& forall|i: int| #![trigger r.renames@[i]] 0 <= i < files.len() ==> renames_match(
        r.renames@[i]@,
        file_renames(run_modules(files_view(files).take(i), salt(pkg, rev)), files[i]@, salt(pkg, rev)),
    )
}

/// Walks the files in order. Every module's fingerprint is the checksum of
/// the salt followed by the bytes of the significant tokens of its scope; a
/// later declaration of a name replaces the earlier fingerprint.
pub fn first_pass(pkg: &Vec<u8>, rev: usize, files: &Vec<Vec<Node>>) -> (r: PassOne)
    ensures
        first_pass_post(pkg@, rev as nat, files@, r),
{
    let seed = salt_bytes(pkg, rev);
    let ghost fv = files_view(files@);
    let mut modules: Vec<ModuleRecord> = Vec::new();
    let mut renames: Vec<Vec<RenameInstruction>> = Vec::new();
    let mut i: usize = 0;
    assert(fv.take(0) =~= Seq::<Seq<Node>>::empty());
    while i < files.len()
        invariant
            i <= files.len(),
            fv == files_view(files@),
            seed@ == salt(pkg@, rev as nat),
            table_matches(modules@, run_modules(fv.take(i as int), seed@)),
            renames@.len() == i,
            forall|j: int| #![trigger renames@[j]] 0 <= j < i ==> renames_match(
                renames@[j]@,
                file_renames(run_modules(fv.take(j), seed@), files@[j]@, seed@),
            ),
        decreases files.len() - i,
    {
        assert(fv.take(i + 1).drop_last() =~= fv.take(i as int));
        assert(fv.take(i + 1).last() == files@[i as int]@);
        let ghost before = run_modules(fv.take(i as int), seed@);
        let r = scan_nodes(&seed, &mut modules, &files[i], Ghost(before));
        renames.push(r);
        i += 1;
    }
    assert(fv.take(files@.len() as int) =~= fv);
    PassOne { modules, renames }
}

} // verus!
