//! The configuration snapshot and its reading from command-line arguments.
use vstd::prelude::*;
use vstd::utf8::encode_utf8;
use crate::fingerprint::{bytes_eq, bytes_opt, copy_bytes};

verus! {

/// A preprocessor define, with its optional value.
#[derive(Clone, Debug)]
pub struct Define {
    pub name: Vec<u8>,
    pub value: Option<Vec<u8>>,
}

/// The configuration of a run. Define names are unique, and so are the top
/// module names.
#[derive(Clone, Debug)]
pub struct Parameter {
    pub file_list: Vec<Vec<u8>>,
    pub defines: Vec<Define>,
    pub inc_list: Vec<Vec<u8>>,
    pub top_set: Vec<Vec<u8>>,
    pub rev: usize,
    pub pkg: Vec<u8>,
}

/// A revision or a package given again: the new value wins, and the old one
/// is reported.
#[derive(Clone, Debug)]
pub enum Override {
    Revision { old: usize },
    Package { old: Vec<u8> },
}

/// A fatal error in the arguments.
#[derive(Clone, Debug)]
pub enum ArgError {
    /// The value after `-r` is not a non-negative integer.
    MalformedArgument { value: Vec<u8> },
}

/// What the argument after a flag is taken as.
#[derive(Clone, Copy, Debug, PartialEq, Eq, Structural)]
pub enum PNext {
    Top,
    Rev,
    Pkg,
    Nothing,
}

pub const REV_DEFAULT: usize = 0;

/// `"default"`, the package name when none is given.
pub open spec fn pkg_default() -> Seq<u8> {
    seq![100u8, 101u8, 102u8, 97u8, 117u8, 108u8, 116u8]
}

/// `"+define+"`.
pub open spec fn define_prefix() -> Seq<u8> {
    seq![43u8, 100u8, 101u8, 102u8, 105u8, 110u8, 101u8, 43u8]
}

/// `"+incdir+"`.
pub open spec fn incdir_prefix() -> Seq<u8> {
    seq![43u8, 105u8, 110u8, 99u8, 100u8, 105u8, 114u8, 43u8]
}

pub open spec fn flag(c: u8) -> Seq<u8> {
    seq![45u8, c]
}

pub open spec fn is_digit(b: u8) -> bool {
    48 <= b <= 57
}

/// The number that a string of decimal digits denotes.
pub open spec fn digits_value(s: Seq<u8>) -> nat
    decreases s.len(),
{
    if s.len() == 0 {
        0
    } else {
        digits_value(s.drop_last()) * 10 + (s.last() - 48) as nat
    }
}

/// The digits of an unsigned integer literal, after an optional `+`.
pub open spec fn unsigned_digits(s: Seq<u8>) -> Seq<u8> {
    if s.len() > 0 && s[0] == 43u8 {
        s.skip(1)
    } else {
        s
    }
}

/// The value of a `usize` written in decimal, if `s` is one.
pub open spec fn usize_value(s: Seq<u8>) -> Option<nat> {
    let d = unsigned_digits(s);
    if d.len() > 0 && (forall|i: int| 0 <= i < d.len() ==> is_digit(d[i])) && digits_value(d)
        <= usize::MAX {
        Some(digits_value(d))
    } else {
        None
    }
}

/// A define's text split at its first `=` into name and value.
pub open spec fn define_split(kv: Seq<u8>) -> (Seq<u8>, Option<Seq<u8>>) {
    if exists|i: int| 0 <= i < kv.len() && kv[i] == 61u8 {
        let i = choose|i: int|
            0 <= i < kv.len() && kv[i] == 61u8 && forall|k: int| 0 <= k < i ==> kv[k] != 61u8;
        (kv.take(i), Some(kv.skip(i + 1)))
    } else {
        (kv, None)
    }
}

pub enum OverrideView {
    Revision(nat),
    Package(Seq<u8>),
}

pub open spec fn override_view(o: Override) -> OverrideView {
    match o {
        Override::Revision { old } => OverrideView::Revision(old as nat),
        Override::Package { old } => OverrideView::Package(old@),
    }
}

/// The reading of the arguments as a mathematical value.
pub struct ArgState {
    pub files: Seq<Seq<u8>>,
    pub defines: Map<Seq<u8>, Option<Seq<u8>>>,
    pub incs: Seq<Seq<u8>>,
    pub tops: Set<Seq<u8>>,
    pub rev: nat,
    pub rev_given: bool,
    pub pkg: Seq<u8>,
    pub pkg_given: bool,
    pub pending: PNext,
    pub overrides: Seq<OverrideView>,
    /// The malformed value that stopped the reading.
    pub failed: Option<Seq<u8>>,
}

pub open spec fn initial_args() -> ArgState {
    ArgState {
        files: Seq::empty(),
        defines: Map::empty(),
        incs: Seq::empty(),
        tops: Set::empty(),
        rev: 0,
        rev_given: false,
        pkg: pkg_default(),
        pkg_given: false,
        pending: PNext::Nothing,
        overrides: Seq::empty(),
        failed: None,
    }
}

/// Reads one argument.
pub open spec fn arg_step(s: ArgState, a: Seq<u8>) -> ArgState {
    if s.failed is Some {
        s
    } else {
        match s.pending {
            PNext::Nothing => if a.len() >= 8 && a.take(8) == define_prefix() {
                let (k, v) = define_split(a.skip(8));
                ArgState { defines: s.defines.insert(k, v), ..s }
            } else if a.len() > 8 && a.take(8) == incdir_prefix() {
                ArgState { incs: s.incs.push(a.skip(8)), ..s }
            } else if a == flag(116u8) {
                ArgState { pending: PNext::Top, ..s }
            } else if a == flag(114u8) {
                ArgState { pending: PNext::Rev, ..s }
            } else if a == flag(112u8) {
                ArgState { pending: PNext::Pkg, ..s }
            } else {
                ArgState { files: s.files.push(a), ..s }
            },
            PNext::Top => ArgState { tops: s.tops.insert(a), pending: PNext::Nothing, ..s },
            PNext::Rev => match usize_value(a) {
                Some(v) => ArgState {
                    rev: v,
                    rev_given: true,
                    overrides: if s.rev_given {
                        s.overrides.push(OverrideView::Revision(s.rev))
                    } else {
                        s.overrides
                    },
                    pending: PNext::Nothing,
                    ..s
                },
                None => ArgState { failed: Some(a), ..s },
            },
            PNext::Pkg => ArgState {
                pkg: a,
                pkg_given: true,
                overrides: if s.pkg_given {
                    s.overrides.push(OverrideView::Package(s.pkg))
                } else {
                    s.overrides
                },
                pending: PNext::Nothing,
                ..s
            },
        }
    }
}

/// Reads the arguments in order.
pub open spec fn read_args(args: Seq<Seq<u8>>) -> ArgState
    decreases args.len(),
{
    if args.len() == 0 {
        initial_args()
    } else {
        arg_step(read_args(args.drop_last()), args.last())
    }
}

pub open spec fn args_bytes(args: Seq<String>) -> Seq<Seq<u8>> {
    args.map_values(|a: String| encode_utf8(a@))
}

/// The configuration holds exactly what the reading produced.
pub open spec fn parameter_matches(p: Parameter, s: ArgState) -> bool {
    &&& p.file_list@.map_values(|f: Vec<u8>| f@) == s.files
    &&& p.inc_list@.map_values(|f: Vec<u8>| f@) == s.incs
    &&& defines_match(p.defines@, s.defines)
    &&& tops_match(p.top_set@, s.tops)
    &&& p.rev as nat == s.rev
    &&& p.pkg@ == s.pkg
}

proof fn lemma_prefix_value_le(d: Seq<u8>, i: int)
    requires
        0 <= i <= d.len(),
    ensures
        digits_value(d.take(i)) <= digits_value(d),
    decreases d.len(),
{
    if i < d.len() {
        assert(d.drop_last().take(i) =~= d.take(i));
        lemma_prefix_value_le(d.drop_last(), i);
    } else {
        assert(d.take(i) =~= d);
    }
}

/// Reads a revision: a `usize` in decimal, with an optional leading `+`.
pub fn parse_revision(a: &Vec<u8>) -> (r: Option<usize>)
    ensures
        match r {
            Some(v) => usize_value(a@) == Some(v as nat),
            None => usize_value(a@) is None,
        },
{
    let start: usize = if a.len() > 0 && a[0] == 43u8 { 1 } else { 0 };
    let ghost d = unsigned_digits(a@);
    assert(d =~= a@.subrange(start as int, a@.len() as int));
    if start >= a.len() {
        return None;
    }
    let mut v: usize = 0;
    let mut i: usize = start;
    assert(d.take(0) =~= Seq::<u8>::empty());
    while i < a.len()
        invariant
            start <= i <= a.len(),
            d == unsigned_digits(a@),
            d =~= a@.subrange(start as int, a@.len() as int),
            v as nat == digits_value(d.take(i - start)),
            forall|k: int| 0 <= k < i - start ==> is_digit(d[k]),
        decreases a.len() - i,
    {
        let b = a[i];
        if b < 48u8 || b > 57u8 {
            assert(!is_digit(d[i - start]));
            assert(!(forall|k: int| 0 <= k < d.len() ==> is_digit(d[k])));
            return None;
        }
        assert(d.take(i - start + 1).drop_last() =~= d.take(i - start));
        assert(d.take(i - start + 1).last() == b);
        assert(digits_value(d.take(i - start + 1)) == v * 10 + (b - 48) as nat);
        match v.checked_mul(10) {
            Some(t) => match t.checked_add((b - 48u8) as usize) {
                Some(n) => {
                    v = n;
                },
                None => {
                    proof {
                        lemma_prefix_value_le(d, i - start + 1);
                    }
                    return None;
                },
            },
            None => {
                proof {
                    lemma_prefix_value_le(d, i - start + 1);
                }
                return None;
            },
        }
        i += 1;
    }
    assert(d.take(i - start) =~= d);
    Some(v)
}

/// Splits a define's text at its first `=` into name and value.
fn split_define(kv: &Vec<u8>, from: usize) -> (r: (Vec<u8>, Option<Vec<u8>>))
    requires
        from <= kv.len(),
    ensures
        (r.0@, bytes_opt(r.1)) == define_split(kv@.skip(from as int)),
{
    let ghost t = kv@.skip(from as int);
    let mut i: usize = from;
    let mut name: Vec<u8> = Vec::new();
    while i < kv.len() && kv[i] != 61u8
        invariant
            from <= i <= kv.len(),
            t == kv@.skip(from as int),
            name@ == t.take(i - from),
            forall|k: int| 0 <= k < i - from ==> t[k] != 61u8,
        decreases kv.len() - i,
    {
        name.push(kv[i]);
        assert(name@ =~= t.take(i - from + 1));
        i += 1;
    }
    if i < kv.len() {
        let ghost j = i - from;
        assert(t[j] == 61u8);
        let ghost c = choose|c: int| 0 <= c < t.len() && t[c] == 61u8 && forall|k: int| 0 <= k < c ==> t[k] != 61u8;
        assert(c == j) by {
            if c < j {
                assert(t[c] != 61u8);
            }
            if c > j {
                assert(t[j] != 61u8);
            }
        }
        let mut value: Vec<u8> = Vec::new();
        let mut k: usize = i + 1;
        while k < kv.len()
            invariant
                i < k <= kv.len(),
                value@ == kv@.subrange(i + 1, k as int),
            decreases kv.len() - k,
        {
            value.push(kv[k]);
            assert(value@ =~= kv@.subrange(i + 1, k + 1));
            k += 1;
        }
        assert(value@ =~= t.skip(j + 1));
        (name, Some(value))
    } else {
        assert(name@ =~= t);
        (name, None)
    }
}

fn find_define(defs: &Vec<Define>, name: &Vec<u8>) -> (r: usize)
    ensures
        r <= defs.len(),
        forall|k: int| 0 <= k < r ==> defs@[k].name@ != name@,
        r < defs.len() ==> defs@[r as int].name@ == name@,
{
    let mut i: usize = 0;
    while i < defs.len()
        invariant
            i <= defs.len(),
            forall|k: int| 0 <= k < i ==> defs@[k].name@ != name@,
        decreases defs.len() - i,
    {
        if bytes_eq(&defs[i].name, name) {
            return i;
        }
        i += 1;
    }
    i
}

fn has_name(tops: &Vec<Vec<u8>>, name: &Vec<u8>) -> (r: bool)
    ensures
        r == exists|k: int| 0 <= k < tops@.len() && tops@[k]@ == name@,
{
    let mut i: usize = 0;
    while i < tops.len()
        invariant
            i <= tops.len(),
            forall|k: int| 0 <= k < i ==> tops@[k]@ != name@,
        decreases tops.len() - i,
    {
        if bytes_eq(&tops[i], name) {
            return true;
        }
        i += 1;
    }
    false
}

fn insert_define(defs: &mut Vec<Define>, name: Vec<u8>, value: Option<Vec<u8>>, Ghost(m): Ghost<Map<Seq<u8>, Option<Seq<u8>>>>)
    requires
        defines_match(old(defs)@, m),
    ensures
        defines_match(final(defs)@, m.insert(name@, bytes_opt(value))),
{
    let ghost m2 = m.insert(name@, bytes_opt(value));
    let ghost n = name@;
    let i = find_define(defs, &name);
    if i < defs.len() {
        defs.set(i, Define { name, value });
        assert forall|k: Seq<u8>| m2.contains_key(k) implies exists|j: int|
            0 <= j < defs@.len() && defs@[j].name@ == k by {
            if k != n {
                let j = choose|j: int| 0 <= j < old(defs)@.len() && old(defs)@[j].name@ == k;
                assert(defs@[j] == old(defs)@[j]);
            } else {
                assert(defs@[i as int].name@ == k);
            }
        }
        assert forall|k: Seq<u8>| (exists|j: int| 0 <= j < defs@.len() && defs@[j].name@ == k)
            implies m2.contains_key(k) by {
            let j = choose|j: int| 0 <= j < defs@.len() && defs@[j].name@ == k;
            if j != i {
                assert(old(defs)@[j] == defs@[j]);
            }
        }
    } else {
        defs.push(Define { name, value });
        assert forall|k: Seq<u8>| m2.contains_key(k) implies exists|j: int|
            0 <= j < defs@.len() && defs@[j].name@ == k by {
            if k != n {
                let j = choose|j: int| 0 <= j < old(defs)@.len() && old(defs)@[j].name@ == k;
                assert(defs@[j] == old(defs)@[j]);
            } else {
                assert(defs@[defs@.len() - 1].name@ == k);
            }
        }
        assert forall|k: Seq<u8>| (exists|j: int| 0 <= j < defs@.len() && defs@[j].name@ == k)
            implies m2.contains_key(k) by {
            let j = choose|j: int| 0 <= j < defs@.len() && defs@[j].name@ == k;
            if j < old(defs)@.len() {
                assert(old(defs)@[j] == defs@[j]);
            }
        }
    }
}

fn insert_top(tops: &mut Vec<Vec<u8>>, name: Vec<u8>, Ghost(m): Ghost<Set<Seq<u8>>>)
    requires
        tops_match(old(tops)@, m),
    ensures
        tops_match(final(tops)@, m.insert(name@)),
{
    let ghost n = name@;
    let ghost m2 = m.insert(n);
    if has_name(tops, &name) {
        assert(m2 =~= m);
        return;
    }
    tops.push(name);
    assert forall|k: Seq<u8>| m2.contains(k) implies exists|j: int|
        0 <= j < tops@.len() && tops@[j]@ == k by {
        if k != n {
            let j = choose|j: int| 0 <= j < old(tops)@.len() && old(tops)@[j]@ == k;
            assert(tops@[j] == old(tops)@[j]);
        } else {
            assert(tops@[tops@.len() - 1]@ == k);
        }
    }
    assert forall|k: Seq<u8>| (exists|j: int| 0 <= j < tops@.len() && tops@[j]@ == k)
        implies m2.contains(k) by {
        let j = choose|j: int| 0 <= j < tops@.len() && tops@[j]@ == k;
        if j < old(tops)@.len() {
            assert(old(tops)@[j] == tops@[j]);
        }
    }
}

pub open spec fn defines_match(d: Seq<Define>, m: Map<Seq<u8>, Option<Seq<u8>>>) -> bool {
    &&& forall|i: int, j: int| 0 <= i < j < d.len() ==> d[i].name@ != d[j].name@
    &&& forall|k: Seq<u8>| m.contains_key(k) <==> exists|i: int| 0 <= i < d.len() && d[i].name@ == k
    &&& forall|i: int| #![trigger d[i]] 0 <= i < d.len() ==> m[d[i].name@] == bytes_opt(d[i].value)
}

pub open spec fn tops_match(t: Seq<Vec<u8>>, m: Set<Seq<u8>>) -> bool {
    &&& forall|i: int, j: int| 0 <= i < j < t.len() ==> t[i]@ != t[j]@
    &&& forall|k: Seq<u8>| m.contains(k) <==> exists|i: int| 0 <= i < t.len() && t[i]@ == k
}

fn has_prefix(a: &Vec<u8>, p: &Vec<u8>) -> (r: bool)
    ensures
        r == (a@.len() >= p@.len() && a@.take(p@.len() as int) == p@),
{
    if a.len() < p.len() {
        return false;
    }
    let mut i: usize = 0;
    while i < p.len()
        invariant
            p.len() <= a.len(),
            i <= p.len(),
            forall|k: int| 0 <= k < i ==> a@[k] == p@[k],
        decreases p.len() - i,
    {
        if a[i] != p[i] {
            assert(a@.take(p@.len() as int)[i as int] != p@[i as int]);
            return false;
        }
        i += 1;
    }
    assert(a@.take(p@.len() as int) =~= p@);
    true
}

fn tail(a: &Vec<u8>, from: usize) -> (r: Vec<u8>)
    requires
        from <= a.len(),
    ensures
        r@ == a@.skip(from as int),
{
    let mut r: Vec<u8> = Vec::new();
    let mut k: usize = from;
    while k < a.len()
        invariant
            from <= k <= a.len(),
            r@ == a@.subrange(from as int, k as int),
        decreases a.len() - k,
    {
        r.push(a[k]);
        assert(r@ =~= a@.subrange(from as int, k + 1));
        k += 1;
    }
    assert(r@ =~= a@.skip(from as int));
    r
}

fn is_flag(a: &Vec<u8>, c: u8) -> (r: bool)
    ensures
        r == (a@ == flag(c)),
{
    if a.len() == 2 && a[0] == 45u8 && a[1] == c {
        assert(a@ =~= flag(c));
        true
    } else {
        assert(flag(c).len() == 2 && flag(c)[0] == 45u8 && flag(c)[1] == c);
        false
    }
}

proof fn lemma_failure_stays(args: Seq<Seq<u8>>, i: int)
    requires
        0 <= i <= args.len(),
        read_args(args.take(i)).failed is Some,
    ensures
        read_args(args).failed == read_args(args.take(i)).failed,
    decreases args.len(),
{
    if i < args.len() {
        assert(args.drop_last().take(i) =~= args.take(i));
        lemma_failure_stays(args.drop_last(), i);
    } else {
        assert(args.take(i) =~= args);
    }
}

/// What `parse_args` returns for the arguments.
pub open spec fn parse_args_post(args: Seq<String>, r: Result<(Parameter, Vec<Override>), ArgError>) -> bool {
    let s = read_args(args_bytes(args));
    match r {
        Ok((p, ovs)) => {
            &&& s.failed is None
            &&& parameter_matches(p, s)
            &&& ovs@.map_values(|o: Override| override_view(o)) == s.overrides
        },
        Err(ArgError::MalformedArgument { value }) => s.failed == Some(value@),
    }
}

/// Reads the configuration from command-line arguments, with the revisions
/// and packages that a later flag overrode.
pub fn parse_args(args: Vec<String>) -> (r: Result<(Parameter, Vec<Override>), ArgError>)
    ensures
        parse_args_post(args@, r),
{
    let ghost ab = args_bytes(args@);
    let define_pre: Vec<u8> = vec![43u8, 100u8, 101u8, 102u8, 105u8, 110u8, 101u8, 43u8];
    let incdir_pre: Vec<u8> = vec![43u8, 105u8, 110u8, 99u8, 100u8, 105u8, 114u8, 43u8];
    assert(define_pre@ =~= define_prefix());
    assert(incdir_pre@ =~= incdir_prefix());
    let mut file_list: Vec<Vec<u8>> = Vec::new();
    let mut defines: Vec<Define> = Vec::new();
    let mut inc_list: Vec<Vec<u8>> = Vec::new();
    let mut top_set: Vec<Vec<u8>> = Vec::new();
    let mut rev: usize = REV_DEFAULT;
    let mut rev_given = false;
    let mut pkg: Vec<u8> = vec![100u8, 101u8, 102u8, 97u8, 117u8, 108u8, 116u8];
    assert(pkg@ =~= pkg_default());
    let mut pkg_given = false;
    let mut pnext = PNext::Nothing;
    let mut overrides: Vec<Override> = Vec::new();
    let mut i: usize = 0;
    assert(ab.take(0) =~= Seq::<Seq<u8>>::empty());
    assert(file_list@.map_values(|f: Vec<u8>| f@) =~= Seq::<Seq<u8>>::empty());
    assert(inc_list@.map_values(|f: Vec<u8>| f@) =~= Seq::<Seq<u8>>::empty());
    assert(overrides@.map_values(|o: Override| override_view(o)) =~= Seq::<OverrideView>::empty());
    while i < args.len()
        invariant
            ab == args_bytes(args@),
            define_pre@ == define_prefix(),
            incdir_pre@ == incdir_prefix(),
            i <= args.len(),
            read_args(ab.take(i as int)).failed is None,
            file_list@.map_values(|f: Vec<u8>| f@) == read_args(ab.take(i as int)).files,
            inc_list@.map_values(|f: Vec<u8>| f@) == read_args(ab.take(i as int)).incs,
            defines_match(defines@, read_args(ab.take(i as int)).defines),
            tops_match(top_set@, read_args(ab.take(i as int)).tops),
            rev as nat == read_args(ab.take(i as int)).rev,
            rev_given == read_args(ab.take(i as int)).rev_given,
            pkg@ == read_args(ab.take(i as int)).pkg,
            pkg_given == read_args(ab.take(i as int)).pkg_given,
            pnext == read_args(ab.take(i as int)).pending,
            overrides@.map_values(|o: Override| override_view(o)) == read_args(ab.take(i as int)).overrides,
        decreases args.len() - i,
    {
        let ghost s = read_args(ab.take(i as int));
        assert(ab.take(i + 1).drop_last() =~= ab.take(i as int));
        assert(ab.take(i + 1).last() == ab[i as int]);
        let a = args[i].as_str().as_bytes_vec();
        assert(a@ == ab[i as int]);
        match pnext {
            PNext::Nothing => {
                if has_prefix(&a, &define_pre) {
                    let (k, v) = split_define(&a, 8);
                    insert_define(&mut defines, k, v, Ghost(s.defines));
                } else if a.len() > 8 && has_prefix(&a, &incdir_pre) {
                    let t = tail(&a, 8);
                    let ghost prev = inc_list@;
                    inc_list.push(t);
                    assert(inc_list@.map_values(|f: Vec<u8>| f@) =~= prev.map_values(|f: Vec<u8>| f@).push(t@));
                } else if is_flag(&a, 116u8) {
                    pnext = PNext::Top;
                } else if is_flag(&a, 114u8) {
                    pnext = PNext::Rev;
                } else if is_flag(&a, 112u8) {
                    pnext = PNext::Pkg;
                } else {
                    let ghost prev = file_list@;
                    let ghost av = a@;
                    file_list.push(a);
                    assert(file_list@.map_values(|f: Vec<u8>| f@) =~= prev.map_values(|f: Vec<u8>| f@).push(av));
                }
            },
            PNext::Top => {
                insert_top(&mut top_set, a, Ghost(s.tops));
                pnext = PNext::Nothing;
            },
            PNext::Rev => {
                match parse_revision(&a) {
                    Some(v) => {
                        if rev_given {
                            let ghost prev = overrides@;
                            overrides.push(Override::Revision { old: rev });
                            assert(overrides@.map_values(|o: Override| override_view(o)) =~= prev.map_values(|o: Override| override_view(o)).push(OverrideView::Revision(rev as nat)));
                        }
                        rev = v;
                        rev_given = true;
                        pnext = PNext::Nothing;
                    },
                    None => {
                        proof {
                            lemma_failure_stays(ab, i + 1);
                        }
                        return Err(ArgError::MalformedArgument { value: a });
                    },
                }
            },
            PNext::Pkg => {
                if pkg_given {
                    let ghost prev = overrides@;
                    let old_pkg = copy_bytes(&pkg);
                    overrides.push(Override::Package { old: old_pkg });
                    assert(overrides@.map_values(|o: Override| override_view(o)) =~= prev.map_values(|o: Override| override_view(o)).push(OverrideView::Package(pkg@)));
                }
                pkg = a;
                pkg_given = true;
                pnext = PNext::Nothing;
            },
        }
        i += 1;
    }
    assert(ab.take(args.len() as int) =~= ab);
    Ok((Parameter { file_list, defines, inc_list, top_set, rev, pkg }, overrides))
}

/// A configuration value that was left at its default, or a top set that is
/// empty.
#[derive(Clone, Copy, Debug, PartialEq, Eq, Structural)]
pub enum ConfigWarning {
    PackageNotSet,
    RevisionNotSet,
    TopSetEmpty,
}

pub open spec fn when(c: bool, w: ConfigWarning) -> Seq<ConfigWarning> {
    if c {
        seq![w]
    } else {
        Seq::empty()
    }
}

/// The warnings about a configuration, in this order: package left at its
/// default, revision left at its default, no top module.
pub open spec fn config_warnings(p: Parameter) -> Seq<ConfigWarning> {
    when(p.pkg@ == pkg_default(), ConfigWarning::PackageNotSet)
        + when(p.rev == REV_DEFAULT, ConfigWarning::RevisionNotSet)
        + when(p.top_set@.len() == 0, ConfigWarning::TopSetEmpty)
}

/// The warnings to report about a configuration before a run.
pub fn show_info(p: &Parameter) -> (r: Vec<ConfigWarning>)
    ensures
        r@ == config_warnings(*p),
{
    let mut r: Vec<ConfigWarning> = Vec::new();
    let default_pkg: Vec<u8> = vec![100u8, 101u8, 102u8, 97u8, 117u8, 108u8, 116u8];
    assert(default_pkg@ =~= pkg_default());
    if bytes_eq(&p.pkg, &default_pkg) {
        r.push(ConfigWarning::PackageNotSet);
    }
    let ghost r1 = r@;
    assert(r1 =~= when(p.pkg@ == pkg_default(), ConfigWarning::PackageNotSet));
    if p.rev == REV_DEFAULT {
        r.push(ConfigWarning::RevisionNotSet);
    }
    let ghost r2 = r@;
    assert(r2 =~= r1 + when(p.rev == REV_DEFAULT, ConfigWarning::RevisionNotSet));
    if p.top_set.len() == 0 {
        r.push(ConfigWarning::TopSetEmpty);
    }
    assert(r@ =~= r2 + when(p.top_set@.len() == 0, ConfigWarning::TopSetEmpty));
    r
}

} // verus!
