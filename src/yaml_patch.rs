//! Parsing of command-line overrides of the form `group.key=value`, which
//! patch one nested member of the configuration.
use vstd::prelude::*;

verus! {

/// The pieces of `s` between occurrences of `sep`, in order. As with
/// `str::split`, there is always at least one piece, and adjacent separators
/// give empty pieces.
pub open spec fn pieces(s: Seq<char>, sep: char) -> Seq<Seq<char>>
    decreases s.len(),
{
    if s.len() == 0 {
        seq![Seq::<char>::empty()]
    } else {
        let p = pieces(s.drop_last(), sep);
        if s.last() == sep {
            p.push(Seq::<char>::empty())
        } else {
            p.update(p.len() - 1, p.last().push(s.last()))
        }
    }
}

/// The character sequences that a vector of strings holds.
pub open spec fn views(v: Seq<String>) -> Seq<Seq<char>> {
    v.map_values(|x: String| x@)
}

/// Split `s` at every occurrence of `sep`.
pub fn split_on(s: &str, sep: char) -> (r: Vec<String>)
    ensures
        views(r@) == pieces(s@, sep),
{
    let n = s.unicode_len();
    let mut out: Vec<String> = Vec::new();
    let mut start: usize = 0;
    let mut i: usize = 0;
    proof {
        assert(s@.take(0) =~= Seq::<char>::empty());
    }
    while i < n
        invariant
            n == s@.len(),
            start <= i <= n,
            pieces(s@.take(i as int), sep).len() >= 1,
            views(out@) =~= pieces(s@.take(i as int), sep).drop_last(),
            pieces(s@.take(i as int), sep).last() =~= s@.subrange(start as int, i as int),
        decreases n - i,
    {
        let c = s.get_char(i);
        let ghost p = pieces(s@.take(i as int), sep);
        let ghost q = pieces(s@.take(i as int + 1), sep);
        proof {
            assert(s@.take(i as int + 1).drop_last() =~= s@.take(i as int));
            assert(s@.take(i as int + 1).last() == c);
        }
        if c == sep {
            let piece = s.substring_char(start, i).to_owned();
            let ghost before = out@;
            out.push(piece);
            proof {
                assert(views(out@) =~= views(before).push(s@.subrange(start as int, i as int)));
                assert(p =~= p.drop_last().push(p.last()));
                assert(q == p.push(Seq::<char>::empty()));
                assert(views(out@) =~= q.drop_last());
            }
            start = i + 1;
        } else {
            proof {
                assert(q == p.update(p.len() - 1, p.last().push(c)));
                assert(q.drop_last() =~= p.drop_last());
                assert(s@.subrange(start as int, i as int + 1) =~= s@.subrange(start as int, i as int).push(c));
            }
        }
        i = i + 1;
    }
    let last = s.substring_char(start, n).to_owned();
    out.push(last);
    proof {
        assert(s@.take(n as int) =~= s@);
        let p = pieces(s@, sep);
        assert(p =~= p.drop_last().push(p.last()));
        assert(views(out@) =~= p);
    }
    out
}

/// `s` ends with `suffix`.
pub open spec fn has_suffix(s: Seq<char>, suffix: Seq<char>) -> bool {
    suffix.len() <= s.len() && s.subrange(s.len() - suffix.len(), s.len() as int) == suffix
}

/// Whether `s` ends with `suffix`.
pub fn ends_with(s: &str, suffix: &str) -> (r: bool)
    ensures
        r == has_suffix(s@, suffix@),
{
    let n = s.unicode_len();
    let m = suffix.unicode_len();
    if m > n {
        return false;
    }
    let start = n - m;
    let mut j: usize = 0;
    while j < m
        invariant
            n == s@.len(),
            m == suffix@.len(),
            start == n - m,
            j <= m,
            forall|t: int| 0 <= t < j ==> s@[start + t] == suffix@[t],
        decreases m - j,
    {
        if s.get_char(start + j) != suffix.get_char(j) {
            proof {
                assert(s@.subrange(start as int, n as int)[j as int] != suffix@[j as int]);
            }
            return false;
        }
        j = j + 1;
    }
    proof {
        assert(s@.subrange(start as int, n as int) =~= suffix@);
    }
    true
}

/// How a command-line override patches the configuration.
#[derive(Clone, Copy, Debug, PartialEq, Eq, Structural)]
pub enum OverrideKind {
    /// The name of a YAML file whose contents are merged in.
    YamlFile,
    /// A `group.key=value` assignment.
    KeyVal,
}

/// An override names a YAML file exactly when it ends in `.yaml`; anything
/// else is read as `group.key=value`.
pub fn override_kind(s: &str) -> (r: OverrideKind)
    ensures
        r == (if has_suffix(s@, ".yaml"@) {
            OverrideKind::YamlFile
        } else {
            OverrideKind::KeyVal
        }),
{
    if ends_with(s, ".yaml") {
        OverrideKind::YamlFile
    } else {
        OverrideKind::KeyVal
    }
}

/// An override `a.b.c=value`: the path of nested members to patch, outermost
/// first, and the YAML text of the new value.
#[derive(Debug)]
pub struct KeyValPatch {
    pub path: Vec<String>,
    pub value: String,
}

/// Why an override could not be read.
#[derive(Debug)]
pub enum PatchError {
    /// The text is not exactly one `=` with a non-empty value after it.
    BadlyFormedKeyVal(String),
}

/// An override is well formed when it holds exactly one `=` and something
/// follows it.
pub open spec fn well_formed_key_val(s: Seq<char>) -> bool {
    pieces(s, '=').len() == 2 && pieces(s, '=')[1].len() > 0
}

/// Read an override of the form `group.key=value`.
pub fn parse_key_val(key_val_str: &str) -> (r: Result<KeyValPatch, PatchError>)
    ensures
        r.is_ok() <==> well_formed_key_val(key_val_str@),
        r matches Ok(p) ==> views(p.path@) == pieces(pieces(key_val_str@, '=')[0], '.')
            && p.value@ == pieces(key_val_str@, '=')[1],
        r matches Err(PatchError::BadlyFormedKeyVal(t)) ==> t@ == key_val_str@,
{
    let tokens = split_on(key_val_str, '=');
    proof {
        assert(views(tokens@).len() == tokens@.len());
    }
    if tokens.len() != 2 || tokens[1].unicode_len() == 0 {
        proof {
            if tokens@.len() == 2 {
                assert(views(tokens@)[1] == tokens@[1]@);
            }
        }
        return Err(PatchError::BadlyFormedKeyVal(key_val_str.to_owned()));
    }
    proof {
        assert(views(tokens@)[0] == tokens@[0]@);
        assert(views(tokens@)[1] == tokens@[1]@);
    }
    let path = split_on(tokens[0].as_str(), '.');
    let value = tokens[1].clone();
    Ok(KeyValPatch { path, value })
}

/// An opaque YAML value, carried through a merge untouched.
#[verifier::external_type_specification]
#[verifier::external_body]
pub struct ExValue(serde_yaml::Value);

/// A YAML document as a merge sees it: a mapping with text keys, whose
/// entries are kept in order, or any other value.
#[derive(Debug)]
pub enum Tree {
    Scalar(serde_yaml::Value),
    Table(Vec<(String, Tree)>),
}

/// The mathematical content of a [`Tree`].
pub enum Doc {
    Scalar(serde_yaml::Value),
    Table(Seq<(Seq<char>, Doc)>),
}

/// The content of a tree.
pub open spec fn doc(t: Tree) -> Doc
    decreases t,
{
    match t {
        Tree::Scalar(v) => Doc::Scalar(v),
        Tree::Table(es) => Doc::Table(docs(es@)),
    }
}

/// The content of the entries of a mapping.
pub open spec fn docs(es: Seq<(String, Tree)>) -> Seq<(Seq<char>, Doc)>
    decreases es,
{
    if es.len() == 0 {
        Seq::empty()
    } else {
        docs(es.drop_last()).push((es.last().0@, doc(es.last().1)))
    }
}

/// The value stored under `k`, if any.
pub open spec fn lookup(es: Seq<(Seq<char>, Doc)>, k: Seq<char>) -> Option<Doc>
    decreases es.len(),
{
    if es.len() == 0 {
        None
    } else if es.last().0 == k {
        Some(es.last().1)
    } else {
        lookup(es.drop_last(), k)
    }
}

/// The entries whose keys are not in `ks`, in order.
pub open spec fn without_all(es: Seq<(Seq<char>, Doc)>, ks: Set<Seq<char>>) -> Seq<(Seq<char>, Doc)>
    decreases es.len(),
{
    if es.len() == 0 {
        es
    } else if ks.contains(es.last().0) {
        without_all(es.drop_last(), ks)
    } else {
        without_all(es.drop_last(), ks).push(es.last())
    }
}

/// Merge `patch` into `value`: two mappings merge entry by entry, in the
/// order of the patch, each patched entry moving to the end as a mapping
/// insertion does; anything else is replaced by the patch.
pub open spec fn merged(value: Doc, patch: Doc) -> Doc
    decreases patch,
{
    match patch {
        Doc::Table(b) => match value {
            Doc::Table(a) => Doc::Table(merged_entries(a, b)),
            _ => patch,
        },
        _ => patch,
    }
}

/// Merge the entries `b` of a patch, one after the other, into `acc`.
pub open spec fn merged_entries(
    acc: Seq<(Seq<char>, Doc)>,
    b: Seq<(Seq<char>, Doc)>,
) -> Seq<(Seq<char>, Doc)>
    decreases b,
{
    if b.len() == 0 {
        acc
    } else {
        let k = b[0].0;
        let pv = b[0].1;
        let nv = match lookup(acc, k) {
            Some(x) => merged(x, pv),
            None => pv,
        };
        merged_entries(without_all(acc, set![k]).push((k, nv)), b.drop_first())
    }
}

/// No two entries share a key.
pub open spec fn keys_unique(es: Seq<(Seq<char>, Doc)>) -> bool {
    forall|i: int, j: int| 0 <= i < j < es.len() ==> #[trigger] es[i].0 != #[trigger] es[j].0
}

/// The keys of the entries.
pub open spec fn key_set(es: Seq<(Seq<char>, Doc)>) -> Set<Seq<char>> {
    Set::new(|k: Seq<char>| exists|i: int| 0 <= i < es.len() && #[trigger] es[i].0 == k)
}

/// Every mapping in the document, at any depth, has distinct keys, as a YAML
/// mapping does.
pub open spec fn well_formed(d: Doc) -> bool
    decreases d,
{
    match d {
        Doc::Table(es) => keys_unique(es) && entries_well_formed(es),
        _ => true,
    }
}

/// Every value among the entries is well formed.
pub open spec fn entries_well_formed(es: Seq<(Seq<char>, Doc)>) -> bool
    decreases es,
{
    if es.len() == 0 {
        true
    } else {
        entries_well_formed(es.drop_last()) && well_formed(es.last().1)
    }
}

proof fn lemma_entries_well_formed(es: Seq<(Seq<char>, Doc)>, i: int)
    requires
        entries_well_formed(es),
        0 <= i < es.len(),
    ensures
        well_formed(es[i].1),
    decreases es.len(),
{
    if i < es.len() - 1 {
        assert(es.drop_last()[i] == es[i]);
        lemma_entries_well_formed(es.drop_last(), i);
    }
}

/// The value that a patch entry `(k, pv)` leaves under `k` in `acc`.
pub open spec fn patched_value(acc: Seq<(Seq<char>, Doc)>, k: Seq<char>, pv: Doc) -> Doc {
    match lookup(acc, k) {
        Some(x) => merged(x, pv),
        None => pv,
    }
}

/// The patch entries with their merged values, in patch order.
pub open spec fn patched(acc: Seq<(Seq<char>, Doc)>, b: Seq<(Seq<char>, Doc)>) -> Seq<(Seq<char>, Doc)> {
    Seq::new(b.len(), |i: int| (b[i].0, patched_value(acc, b[i].0, b[i].1)))
}

proof fn lemma_lookup_concat(x: Seq<(Seq<char>, Doc)>, y: Seq<(Seq<char>, Doc)>, k: Seq<char>)
    ensures
        lookup(x + y, k) == (match lookup(y, k) {
            Some(v) => Some(v),
            None => lookup(x, k),
        }),
    decreases y.len(),
{
    if y.len() == 0 {
        assert(x + y =~= x);
    } else {
        assert((x + y).drop_last() =~= x + y.drop_last());
        assert((x + y).last() == y.last());
        lemma_lookup_concat(x, y.drop_last(), k);
    }
}

proof fn lemma_lookup_unique(es: Seq<(Seq<char>, Doc)>, i: int)
    requires
        keys_unique(es),
        0 <= i < es.len(),
    ensures
        lookup(es, es[i].0) == Some(es[i].1),
    decreases es.len(),
{
    if i < es.len() - 1 {
        assert(es[i].0 != es[es.len() - 1].0);
        assert(es.drop_last()[i] == es[i]);
        lemma_lookup_unique(es.drop_last(), i);
    }
}

proof fn lemma_without_all_concat(
    x: Seq<(Seq<char>, Doc)>,
    y: Seq<(Seq<char>, Doc)>,
    ks: Set<Seq<char>>,
)
    ensures
        without_all(x + y, ks) == without_all(x, ks) + without_all(y, ks),
    decreases y.len(),
{
    if y.len() == 0 {
        assert(x + y =~= x);
        assert(without_all(x, ks) + without_all(y, ks) =~= without_all(x, ks));
    } else {
        assert((x + y).drop_last() =~= x + y.drop_last());
        assert((x + y).last() == y.last());
        lemma_without_all_concat(x, y.drop_last(), ks);
        if !ks.contains(y.last().0) {
            assert(without_all(x, ks) + without_all(y.drop_last(), ks).push(y.last()) =~= (
            without_all(x, ks) + without_all(y.drop_last(), ks)).push(y.last()));
        }
    }
}

proof fn lemma_without_all_keeps(es: Seq<(Seq<char>, Doc)>, ks: Set<Seq<char>>)
    requires
        forall|i: int| 0 <= i < es.len() ==> !ks.contains(#[trigger] es[i].0),
    ensures
        without_all(es, ks) == es,
    decreases es.len(),
{
    if es.len() > 0 {
        assert(es.last() == es[es.len() - 1]);
        lemma_without_all_keeps(es.drop_last(), ks);
        assert(es.drop_last().push(es.last()) =~= es);
    }
}

proof fn lemma_without_all_drops(es: Seq<(Seq<char>, Doc)>, ks: Set<Seq<char>>)
    requires
        forall|i: int| 0 <= i < es.len() ==> ks.contains(#[trigger] es[i].0),
    ensures
        without_all(es, ks) == Seq::<(Seq<char>, Doc)>::empty(),
    decreases es.len(),
{
    if es.len() > 0 {
        assert(es.last() == es[es.len() - 1]);
        lemma_without_all_drops(es.drop_last(), ks);
    }
}

proof fn lemma_without_all_twice(es: Seq<(Seq<char>, Doc)>, k1: Set<Seq<char>>, k2: Set<Seq<char>>)
    ensures
        without_all(without_all(es, k1), k2) == without_all(es, k1.union(k2)),
    decreases es.len(),
{
    if es.len() > 0 {
        lemma_without_all_twice(es.drop_last(), k1, k2);
        let w = without_all(es.drop_last(), k1);
        if !k1.contains(es.last().0) {
            assert(w.push(es.last()).drop_last() =~= w);
        }
    }
}

proof fn lemma_lookup_without_all(es: Seq<(Seq<char>, Doc)>, ks: Set<Seq<char>>, k: Seq<char>)
    requires
        !ks.contains(k),
    ensures
        lookup(without_all(es, ks), k) == lookup(es, k),
    decreases es.len(),
{
    if es.len() > 0 {
        lemma_lookup_without_all(es.drop_last(), ks, k);
        let w = without_all(es.drop_last(), ks);
        if !ks.contains(es.last().0) {
            assert(w.push(es.last()).drop_last() =~= w);
        }
    }
}

/// Merging the entries of a patch with distinct keys leaves the entries of
/// `acc` under other keys in their order, followed by the patch entries with
/// their merged values.
proof fn lemma_merged_entries_shape(acc: Seq<(Seq<char>, Doc)>, b: Seq<(Seq<char>, Doc)>)
    requires
        keys_unique(b),
    ensures
        merged_entries(acc, b) == without_all(acc, key_set(b)) + patched(acc, b),
    decreases b.len(),
{
    if b.len() == 0 {
        assert(key_set(b) =~= Set::<Seq<char>>::empty());
        lemma_without_all_keeps(acc, key_set(b));
        assert(acc + patched(acc, b) =~= acc);
    } else {
        let k0 = b[0].0;
        let rest = b.drop_first();
        let nv = patched_value(acc, k0, b[0].1);
        let acc1 = without_all(acc, set![k0]).push((k0, nv));
        assert(keys_unique(rest)) by {
            assert forall|i: int, j: int| 0 <= i < j < rest.len() implies #[trigger] rest[i].0
                != #[trigger] rest[j].0 by {
                assert(rest[i] == b[i + 1] && rest[j] == b[j + 1]);
            }
        }
        lemma_merged_entries_shape(acc1, rest);
        assert(!key_set(rest).contains(k0)) by {
            if key_set(rest).contains(k0) {
                let i = choose|i: int| 0 <= i < rest.len() && #[trigger] rest[i].0 == k0;
                assert(b[i + 1].0 == b[0].0);
            }
        }
        assert(key_set(b) =~= set![k0].union(key_set(rest))) by {
            assert forall|k: Seq<char>| key_set(b).contains(k) implies set![k0].union(
                key_set(rest),
            ).contains(k) by {
                let i = choose|i: int| 0 <= i < b.len() && #[trigger] b[i].0 == k;
                if i > 0 {
                    assert(rest[i - 1] == b[i]);
                }
            }
            assert forall|k: Seq<char>| set![k0].union(key_set(rest)).contains(k) implies key_set(
                b,
            ).contains(k) by {
                if k != k0 {
                    let i = choose|i: int| 0 <= i < rest.len() && #[trigger] rest[i].0 == k;
                    assert(b[i + 1] == rest[i]);
                }
                else {
                    assert(b[0].0 == k);
                }
            }
        }
        let w = without_all(acc, set![k0]);
        assert(w.push((k0, nv)).drop_last() =~= w);
        assert(without_all(acc1, key_set(rest)) == without_all(w, key_set(rest)).push((k0, nv)));
        lemma_without_all_twice(acc, set![k0], key_set(rest));
        assert forall|i: int| 0 <= i < rest.len() implies #[trigger] patched(acc1, rest)[i] == patched(
            acc,
            b,
        )[i + 1] by {
            let k = rest[i].0;
            assert(rest[i] == b[i + 1]);
            assert(k != k0) by {
                assert(b[i + 1].0 != b[0].0);
            }
            assert(acc1.drop_last() =~= w);
            assert(lookup(acc1, k) == lookup(w, k));
            lemma_lookup_without_all(acc, set![k0], k);
        }
        assert(patched(acc, b) =~= seq![(k0, nv)] + patched(acc1, rest));
        assert(without_all(acc, key_set(b)) + patched(acc, b) =~= without_all(acc1, key_set(rest))
            + patched(acc1, rest));
    }
}

/// A well-formed document merged into itself is unchanged.
pub proof fn lemma_merge_self(d: Doc)
    requires
        well_formed(d),
    ensures
        merged(d, d) == d,
    decreases d,
{
    if let Doc::Table(b) = d {
        lemma_merged_entries_shape(b, b);
        assert forall|i: int| 0 <= i < b.len() implies key_set(b).contains(#[trigger] b[i].0) by {
            assert(b[i].0 == b[i].0);
        }
        lemma_without_all_drops(b, key_set(b));
        assert forall|i: int| 0 <= i < b.len() implies #[trigger] patched(b, b)[i] == b[i] by {
            lemma_lookup_unique(b, i);
            lemma_entries_well_formed(b, i);
            lemma_merge_self(b[i].1);
        }
        assert(Seq::<(Seq<char>, Doc)>::empty() + patched(b, b) =~= b);
    }
}

/// Patching a configuration twice with the same well-formed overlay gives the
/// same configuration as patching it once.
pub proof fn lemma_patch_idempotent(value: Doc, patch: Doc)
    requires
        well_formed(patch),
    ensures
        merged(merged(value, patch), patch) == merged(value, patch),
    decreases patch,
{
    match patch {
        Doc::Table(b) => match value {
            Doc::Table(a) => {
                let ks = key_set(b);
                lemma_merged_entries_shape(a, b);
                let f = without_all(a, ks);
                let pb = patched(a, b);
                let m = f + pb;
                lemma_merged_entries_shape(m, b);
                lemma_without_all_concat(f, pb, ks);
                lemma_without_all_twice(a, ks, ks);
                assert(ks.union(ks) =~= ks);
                assert forall|i: int| 0 <= i < pb.len() implies ks.contains(#[trigger] pb[i].0) by {
                    assert(pb[i].0 == b[i].0);
                }
                lemma_without_all_drops(pb, ks);
                assert(f + Seq::<(Seq<char>, Doc)>::empty() =~= f);
                assert(keys_unique(pb)) by {
                    assert forall|i: int, j: int| 0 <= i < j < pb.len() implies #[trigger] pb[i].0
                        != #[trigger] pb[j].0 by {
                        assert(pb[i].0 == b[i].0 && pb[j].0 == b[j].0);
                    }
                }
                assert forall|i: int| 0 <= i < b.len() implies #[trigger] patched(m, b)[i] == pb[i] by {
                    let k = b[i].0;
                    lemma_lookup_concat(f, pb, k);
                    lemma_lookup_unique(pb, i);
                    assert(pb[i].0 == k);
                    lemma_entries_well_formed(b, i);
                    match lookup(a, k) {
                        Some(x) => {
                            lemma_patch_idempotent(x, b[i].1);
                        },
                        None => {
                            lemma_merge_self(b[i].1);
                        },
                    }
                }
                assert(patched(m, b) =~= pb);
            },
            _ => {
                lemma_merge_self(patch);
            },
        },
        _ => {},
    }
}

/// The content of an optional tree.
pub open spec fn opt_doc(t: Option<Tree>) -> Option<Doc> {
    match t {
        Some(x) => Some(doc(x)),
        None => None,
    }
}

proof fn lemma_docs(es: Seq<(String, Tree)>)
    ensures
        docs(es).len() == es.len(),
        forall|j: int| 0 <= j < es.len() ==> #[trigger] docs(es)[j] == (es[j].0@, doc(es[j].1)),
    decreases es.len(),
{
    if es.len() > 0 {
        lemma_docs(es.drop_last());
        assert forall|j: int| 0 <= j < es.len() implies #[trigger] docs(es)[j] == (
        es[j].0@,
        doc(es[j].1),
        ) by {
            if j < es.len() - 1 {
                assert(es.drop_last()[j] == es[j]);
            }
        }
    }
}

/// Take the entry stored under `k` out of a mapping's entries: the entries
/// under other keys, in order, and the value under `k`, if any.
fn take_key(entries: Vec<(String, Tree)>, k: &String) -> (r: (Vec<(String, Tree)>, Option<Tree>))
    ensures
        docs(r.0@) == without_all(docs(entries@), set![k@]),
        opt_doc(r.1) == lookup(docs(entries@), k@),
{
    let ghost a0 = entries@;
    let mut entries = entries;
    let mut rest: Vec<(String, Tree)> = Vec::new();
    let mut found: Option<Tree> = None;
    let mut i: usize = 0;
    proof {
        assert(a0.take(0) =~= Seq::<(String, Tree)>::empty());
        assert(a0.subrange(0, a0.len() as int) =~= a0);
        assert(a0.len() == entries.len());
    }
    while entries.len() > 0
        invariant
            i <= a0.len() <= usize::MAX,
            entries@ == a0.subrange(i as int, a0.len() as int),
            docs(rest@) == without_all(docs(a0.take(i as int)), set![k@]),
            opt_doc(found) == lookup(docs(a0.take(i as int)), k@),
        decreases entries.len(),
    {
        let ghost before = entries@;
        let (key, val) = entries.remove(0);
        proof {
            assert(before[0] == a0[i as int]);
            assert(entries@ =~= a0.subrange(i as int + 1, a0.len() as int));
            let prefix = a0.take(i as int + 1);
            assert(prefix.drop_last() =~= a0.take(i as int));
            assert(prefix.last() == a0[i as int]);
            let d = docs(a0.take(i as int));
            assert(docs(prefix) == d.push((key@, doc(val))));
            assert(d.push((key@, doc(val))).drop_last() =~= d);
        }
        if key == *k {
            found = Some(val);
        } else {
            let ghost r0 = rest@;
            rest.push((key, val));
            proof {
                assert(r0.push((key, val)).drop_last() =~= r0);
            }
        }
        i = i + 1;
    }
    proof {
        assert(a0.take(i as int) =~= a0);
    }
    (rest, found)
}

/// Merge the entries of a patch mapping into the entries of a mapping.
pub fn merge_mapping(value_map: Vec<(String, Tree)>, patch_map: Vec<(String, Tree)>) -> (r: Vec<
    (String, Tree),
>)
    ensures
        docs(r@) == merged_entries(docs(value_map@), docs(patch_map@)),
    decreases patch_map,
{
    let ghost b0 = patch_map@;
    let ghost a0 = value_map@;
    let mut acc = value_map;
    let mut rest = patch_map;
    let mut i: usize = 0;
    proof {
        assert(b0.subrange(0, b0.len() as int) =~= b0);
        assert(b0.len() == rest.len());
    }
    while rest.len() > 0
        invariant
            i <= b0.len() <= usize::MAX,
            b0 == patch_map@,
            rest@ == b0.subrange(i as int, b0.len() as int),
            merged_entries(docs(acc@), docs(rest@)) == merged_entries(docs(a0), docs(b0)),
        decreases rest.len(),
    {
        let ghost before = rest@;
        let ghost acc0 = acc@;
        let (k, pv) = rest.remove(0);
        proof {
            lemma_docs(before);
            lemma_docs(rest@);
            assert(before[0] == b0[i as int]);
            assert(docs(rest@) =~= docs(before).drop_first());
            assert(docs(before)[0] == (k@, doc(pv)));
            assert(decreases_to!(patch_map => patch_map@[i as int]));
            assert(i < b0.len());
        }
        let (remaining, found) = take_key(acc, &k);
        let nv = match found {
            Some(old) => merge_value(old, pv),
            None => pv,
        };
        acc = remaining;
        let ghost r0 = acc@;
        acc.push((k, nv));
        proof {
            assert(acc@.drop_last() =~= r0);
        }
        i = i + 1;
    }
    proof {
        assert(docs(rest@) =~= Seq::<(Seq<char>, Doc)>::empty());
    }
    acc
}

/// Merge `patch` into `value`: mappings merge entry by entry, and any other
/// patch replaces the value.
pub fn merge_value(value: Tree, patch: Tree) -> (r: Tree)
    ensures
        doc(r) == merged(doc(value), doc(patch)),
    decreases patch,
{
    match patch {
        Tree::Table(b) => match value {
            Tree::Table(a) => Tree::Table(merge_mapping(a, b)),
            _ => Tree::Table(b),
        },
        other => other,
    }
}

} // verus!
