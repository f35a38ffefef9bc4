//! Serialized form of bindings.
//!
//! The logical schema is format-agnostic: a configuration lists input
//! sources, each mapping action names to the textual forms of the inputs
//! bound to them, and filters, each naming its kind and its target actions.

use vstd::prelude::*;
use vstd::string::StrSliceExecFns;

use crate::graph::FilterConfig;

verus! {

/// Serialized form of a whole set of bindings.
#[derive(Clone, Debug)]
pub struct Config {
    pub sources: Vec<SourceConfig>,
    pub filters: Vec<FilterConfig>,
}

impl Default for Config {
    /// A configuration with no sources and no filters.
    fn default() -> (r: Config)
        ensures
            r.sources@ == Seq::<SourceConfig>::empty(),
            r.filters@ == Seq::<FilterConfig>::empty(),
    {
        Config { sources: Vec::new(), filters: Vec::new() }
    }
}

/// Subset of serialized bindings associated with one input source: the
/// source's name, and a map from action names to the textual forms of the
/// inputs bound to them.
#[derive(Clone, Debug)]
pub struct SourceConfig {
    /// The name of the input source that should interpret these bindings.
    pub ty: String,
    /// Maps action names to textual input forms from this source.
    pub bindings: Vec<(String, Vec<String>)>,
}

/// True when the list of textual forms contains `text`.
pub open spec fn texts_contain(v: Seq<String>, text: Seq<char>) -> bool {
    exists|ti: int| 0 <= ti < v.len() && (#[trigger] v[ti])@ == text
}

/// True when the source configuration lists the textual input `text` for
/// the action named `name`.
pub open spec fn src_mentions(sc: SourceConfig, name: Seq<char>, text: Seq<char>) -> bool {
    exists|bi: int|
        0 <= bi < sc.bindings@.len() && (#[trigger] sc.bindings@[bi]).0@ == name && texts_contain(
            sc.bindings@[bi].1@,
            text,
        )
}

/// True when the configuration, under the source named `kind`, lists the
/// textual input `text` for the action named `name`.
pub open spec fn config_mentions(
    sources: Seq<SourceConfig>,
    kind: Seq<char>,
    name: Seq<char>,
    text: Seq<char>,
) -> bool {
    exists|si: int|
        0 <= si < sources.len() && (#[trigger] sources[si]).ty@ == kind && src_mentions(
            sources[si],
            name,
            text,
        )
}

/// True when every name entry lists at least one textual form.
pub open spec fn entries_nonempty(b: Seq<(String, Vec<String>)>) -> bool {
    forall|bi: int| 0 <= bi < b.len() ==> (#[trigger] b[bi]).1@.len() > 0
}

/// True when every source section has at least one name entry and every
/// entry at least one textual form: no spurious empty sections appear.
pub open spec fn sources_nonempty(s: Seq<SourceConfig>) -> bool {
    forall|si: int|
        0 <= si < s.len() ==> ((#[trigger] s[si]).bindings@.len() > 0 && entries_nonempty(
            s[si].bindings@,
        ))
}

/// How many times the list of textual forms lists `text`.
pub open spec fn text_count(v: Seq<String>, t: Seq<char>) -> nat
    decreases v.len(),
{
    if v.len() == 0 {
        0
    } else {
        (if v[0]@ == t {
            1nat
        } else {
            0nat
        }) + text_count(v.drop_first(), t)
    }
}

/// Appending one textual form raises its own count by one and no other.
pub proof fn lemma_text_count_push(v: Seq<String>, x: String, t: Seq<char>)
    ensures
        text_count(v.push(x), t) == text_count(v, t) + (if x@ == t {
            1nat
        } else {
            0nat
        }),
    decreases v.len(),
{
    if v.len() == 0 {
        assert(v.push(x)[0] == x);
        assert(v.push(x).drop_first() =~= Seq::<String>::empty());
        assert(text_count(v.push(x).drop_first(), t) == 0);
    } else {
        assert(v.push(x)[0] == v[0]);
        assert(v.push(x).drop_first() =~= v.drop_first().push(x));
        lemma_text_count_push(v.drop_first(), x, t);
        assert(text_count(v.push(x), t) == (if v[0]@ == t {
            1nat
        } else {
            0nat
        }) + text_count(v.drop_first().push(x), t));
    }
}

/// True when some name entry is keyed by `nm`.
pub open spec fn has_entry(b: Seq<(String, Vec<String>)>, nm: Seq<char>) -> bool {
    exists|bi: int| 0 <= bi < b.len() && (#[trigger] b[bi]).0@ == nm
}

/// The index of the name entry keyed by `nm`; unique when the entries are
/// strictly sorted.
pub open spec fn entry_idx(b: Seq<(String, Vec<String>)>, nm: Seq<char>) -> int {
    choose|bi: int| 0 <= bi < b.len() && (#[trigger] b[bi]).0@ == nm
}

/// Nothing is lexicographically below itself.
pub proof fn lemma_lex_irrefl(a: Seq<char>)
    ensures
        !lex_lt(a, a),
    decreases a.len(),
{
    if a.len() > 0 {
        lemma_lex_irrefl(a.drop_first());
    }
}

/// In a strictly sorted entry list an index whose entry is keyed by `nm`
/// is the unique one, so it is the one `entry_idx` denotes.
pub proof fn lemma_entry_idx_unique(b: Seq<(String, Vec<String>)>, i: int, nm: Seq<char>)
    requires
        names_sorted(b),
        0 <= i < b.len(),
        b[i].0@ == nm,
    ensures
        has_entry(b, nm),
        entry_idx(b, nm) == i,
{
    assert(has_entry(b, nm));
    let j = entry_idx(b, nm);
    assert(0 <= j < b.len() && b[j].0@ == nm);
    lemma_lex_irrefl(nm);
    if j < i {
        assert(lex_lt(b[j].0@, b[i].0@));
    } else if j > i {
        assert(lex_lt(b[i].0@, b[j].0@));
    }
}

/// How many times the configuration, under the source named `kind` and
/// the action named `nm`, lists the textual form `t`: zero when no such
/// section or entry exists.
pub open spec fn mention_count(
    s: Seq<SourceConfig>,
    kind: Seq<char>,
    nm: Seq<char>,
    t: Seq<char>,
) -> nat {
    if has_kind(s, kind) && has_entry(s[kind_idx(s, kind)].bindings@, nm) {
        text_count(
            s[kind_idx(s, kind)].bindings@[entry_idx(s[kind_idx(s, kind)].bindings@, nm)].1@,
            t,
        )
    } else {
        0
    }
}

/// Strict lexicographic order on character sequences.
pub open spec fn lex_lt(a: Seq<char>, b: Seq<char>) -> bool
    decreases a.len(),
{
    if b.len() == 0 {
        false
    } else if a.len() == 0 {
        true
    } else if a[0] != b[0] {
        (a[0] as int) < (b[0] as int)
    } else {
        lex_lt(a.drop_first(), b.drop_first())
    }
}

/// Lexicographic order is total: two sequences are equal or ordered.
pub proof fn lemma_lex_total(a: Seq<char>, b: Seq<char>)
    ensures
        a == b || lex_lt(a, b) || lex_lt(b, a),
    decreases a.len(),
{
    if b.len() == 0 {
        if a.len() == 0 {
            assert(a =~= b);
        }
    } else if a.len() == 0 {
    } else if a[0] != b[0] {
        assert((a[0] as int) != (b[0] as int));
    } else {
        lemma_lex_total(a.drop_first(), b.drop_first());
        if a.drop_first() == b.drop_first() {
            assert(a.len() == b.len()) by {
                assert(a.drop_first().len() == b.drop_first().len());
            }
            assert forall|i: int| 0 <= i < a.len() implies a[i] == b[i] by {
                if i > 0 {
                    assert(a.drop_first()[i - 1] == a[i]);
                    assert(b.drop_first()[i - 1] == b[i]);
                    assert(a.drop_first()[i - 1] == b.drop_first()[i - 1]);
                }
            }
            assert(a =~= b);
        }
    }
}

/// Lexicographic order is transitive.
pub proof fn lemma_lex_trans(a: Seq<char>, b: Seq<char>, c: Seq<char>)
    requires
        lex_lt(a, b),
        lex_lt(b, c),
    ensures
        lex_lt(a, c),
    decreases a.len() + b.len() + c.len(),
{
    if a.len() == 0 {
        assert(b.len() > 0);
        assert(c.len() > 0);
    } else {
        assert(b.len() > 0 && c.len() > 0);
        if a[0] == b[0] {
            if b[0] == c[0] {
                lemma_lex_trans(a.drop_first(), b.drop_first(), c.drop_first());
            } else {
            }
        } else {
            if b[0] == c[0] {
            } else {
            }
        }
    }
}

/// Names in one source's binding list are strictly increasing.
pub open spec fn names_sorted(b: Seq<(String, Vec<String>)>) -> bool {
    forall|p: int, q: int|
        0 <= p < q < b.len() ==> lex_lt((#[trigger] b[p]).0@, (#[trigger] b[q]).0@)
}

/// Source names are distinct, and each source's binding list is sorted by
/// action name.
pub open spec fn sources_wf(s: Seq<SourceConfig>) -> bool {
    &&& forall|p: int, q: int| 0 <= p < q < s.len() ==> (#[trigger] s[p]).ty@ != (#[trigger] s[q]).ty@
    &&& forall|si: int| 0 <= si < s.len() ==> names_sorted((#[trigger] s[si]).bindings@)
}

/// True when some source is named `kind`.
pub open spec fn has_kind(s: Seq<SourceConfig>, kind: Seq<char>) -> bool {
    exists|si: int| 0 <= si < s.len() && (#[trigger] s[si]).ty@ == kind
}

/// Compare two strings in lexicographic order.
pub fn str_lex_lt(a: &String, b: &String) -> (r: bool)
    ensures
        r == lex_lt(a@, b@),
{
    let an = a.as_str().unicode_len();
    let bn = b.as_str().unicode_len();
    proof {
        assert(a@.skip(0) =~= a@);
        assert(b@.skip(0) =~= b@);
    }
    let mut i: usize = 0;
    while i < an && i < bn
        invariant
            i <= an,
            i <= bn,
            an == a@.len(),
            bn == b@.len(),
            forall|j: int| 0 <= j < i ==> a@[j] == b@[j],
            lex_lt(a@, b@) == lex_lt(a@.skip(i as int), b@.skip(i as int)),
        decreases an - i,
    {
        let ca = a.as_str().get_char(i);
        let cb = b.as_str().get_char(i);
        if ca != cb {
            proof {
                assert(a@.skip(i as int)[0] == a@[i as int]);
                assert(b@.skip(i as int)[0] == b@[i as int]);
            }
            return (ca as u32) < (cb as u32);
        }
        proof {
            assert(a@.skip(i as int)[0] == a@[i as int]);
            assert(b@.skip(i as int)[0] == b@[i as int]);
            assert(a@.skip(i as int).drop_first() =~= a@.skip(i as int + 1));
            assert(b@.skip(i as int).drop_first() =~= b@.skip(i as int + 1));
            assert(a@.skip(i as int).len() > 0 && b@.skip(i as int).len() > 0);
        }
        i = i + 1;
    }
    proof {
        assert(a@.skip(i as int).len() == an - i);
        assert(b@.skip(i as int).len() == bn - i);
    }
    an < bn
}

/// The index of the source named `kind`; unique when sources are
/// well-formed.
pub open spec fn kind_idx(s: Seq<SourceConfig>, kind: Seq<char>) -> int {
    choose|si: int| 0 <= si < s.len() && (#[trigger] s[si]).ty@ == kind
}

/// In a well-formed source list an index whose source is named `kind` is
/// the unique one, so it is the one `kind_idx` denotes.
proof fn lemma_kind_idx_unique(s: Seq<SourceConfig>, i: int, kind: Seq<char>)
    requires
        forall|p: int, q: int| 0 <= p < q < s.len() ==> (#[trigger] s[p]).ty@ != (#[trigger] s[q]).ty@,
        0 <= i < s.len(),
        s[i].ty@ == kind,
    ensures
        has_kind(s, kind),
        kind_idx(s, kind) == i,
{
    assert(has_kind(s, kind));
    let j = kind_idx(s, kind);
    assert(0 <= j < s.len() && s[j].ty@ == kind);
    if j < i {
        assert(s[j].ty@ != s[i].ty@);
    } else if j > i {
        assert(s[i].ty@ != s[j].ty@);
    }
}

/// Find the source named `kind`, if any.
fn find_kind(sources: &Vec<SourceConfig>, kind: &String) -> (r: Option<usize>)
    requires
        forall|p: int, q: int|
            0 <= p < q < sources@.len() ==> (#[trigger] sources@[p]).ty@ != (
            #[trigger] sources@[q]).ty@,
    ensures
        r is Some <==> has_kind(sources@, kind@),
        r matches Some(i) ==> i < sources@.len() && sources@[i as int].ty@ == kind@,
{
    let n = sources.len();
    let mut i: usize = 0;
    while i < n
        invariant
            i <= n,
            n == sources@.len(),
            forall|j: int| 0 <= j < i ==> (#[trigger] sources@[j]).ty@ != kind@,
        decreases n - i,
    {
        if sources[i].ty == *kind {
            proof {
                assert(sources@[i as int].ty@ == kind@);
                assert(has_kind(sources@, kind@));
            }
            return Some(i);
        }
        i = i + 1;
    }
    proof {
        if has_kind(sources@, kind@) {
            let j = kind_idx(sources@, kind@);
            assert(sources@[j].ty@ == kind@);
        }
    }
    None
}

/// Find the binding entry for the action named `name`, if any.
fn find_name(b: &Vec<(String, Vec<String>)>, name: &String) -> (r: Option<usize>)
    ensures
        r matches Some(i) ==> i < b@.len() && b@[i as int].0@ == name@,
        r is None ==> forall|j: int| 0 <= j < b@.len() ==> (#[trigger] b@[j]).0@ != name@,
{
    let n = b.len();
    let mut i: usize = 0;
    while i < n
        invariant
            i <= n,
            n == b@.len(),
            forall|j: int| 0 <= j < i ==> (#[trigger] b@[j]).0@ != name@,
        decreases n - i,
    {
        if b[i].0 == *name {
            return Some(i);
        }
        i = i + 1;
    }
    None
}

/// Find the position at which an entry named `name` keeps the list sorted:
/// the first position whose entry's name is greater.
fn find_insert_pos(b: &Vec<(String, Vec<String>)>, name: &String) -> (r: usize)
    requires
        names_sorted(b@),
        forall|j: int| 0 <= j < b@.len() ==> (#[trigger] b@[j]).0@ != name@,
    ensures
        r <= b@.len(),
        forall|j: int| 0 <= j < r ==> lex_lt((#[trigger] b@[j]).0@, name@),
        forall|j: int| r <= j < b@.len() ==> lex_lt(name@, (#[trigger] b@[j]).0@),
{
    let n = b.len();
    let mut i: usize = 0;
    while i < n
        invariant
            i <= n,
            n == b@.len(),
            names_sorted(b@),
            forall|j: int| 0 <= j < b@.len() ==> (#[trigger] b@[j]).0@ != name@,
            forall|j: int| 0 <= j < i ==> lex_lt((#[trigger] b@[j]).0@, name@),
        decreases n - i,
    {
        if str_lex_lt(name, &b[i].0) {
            proof {
                assert forall|j: int| i <= j < b@.len() implies lex_lt(
                    name@,
                    (#[trigger] b@[j]).0@,
                ) by {
                    if j > i {
                        lemma_lex_trans(name@, b@[i as int].0@, b@[j].0@);
                    }
                }
            }
            return i;
        }
        proof {
            lemma_lex_total(name@, b@[i as int].0@);
        }
        i = i + 1;
    }
    n
}

/// Record that the source named `kind` binds the textual input `text` to
/// the action named `name`, creating the source or the name entry as
/// needed; name entries stay sorted.
pub fn add_text(sources: &mut Vec<SourceConfig>, kind: &String, name: String, text: &String)
    requires
        sources_wf(old(sources)@),
    ensures
        sources_wf(final(sources)@),
        forall|k2: Seq<char>, n2: Seq<char>, t2: Seq<char>|
            #[trigger] config_mentions(final(sources)@, k2, n2, t2) <==> (config_mentions(
                old(sources)@,
                k2,
                n2,
                t2,
            ) || (k2 == kind@ && n2 == name@ && t2 == text@)),
        sources_nonempty(old(sources)@) ==> sources_nonempty(final(sources)@),
        forall|k2: Seq<char>, n2: Seq<char>, t2: Seq<char>|
            #[trigger] mention_count(final(sources)@, k2, n2, t2) == mention_count(
                old(sources)@,
                k2,
                n2,
                t2,
            ) + (if k2 == kind@ && n2 == name@ && t2 == text@ {
                1nat
            } else {
                0nat
            }),
{
    let si = match find_kind(sources, kind) {
        Option::Some(i) => i,
        Option::None => {
            let ghost pre = sources@;
            sources.push(SourceConfig { ty: kind.clone(), bindings: Vec::new() });
            proof {
                let ni = pre.len() as int;
                assert(sources@[ni].ty@ == kind@);
                assert(sources@[ni].bindings@.len() == 0);
                assert forall|p: int, q: int|
                    0 <= p < q < sources@.len() implies (#[trigger] sources@[p]).ty@ != (
                #[trigger] sources@[q]).ty@ by {
                    if q < ni {
                        assert(pre[p].ty@ != pre[q].ty@);
                    } else {
                        assert(sources@[q].ty@ == kind@);
                        assert(sources@[p] == pre[p]);
                        if pre[p].ty@ == kind@ {
                            assert(has_kind(pre, kind@));
                        }
                    }
                }
                assert forall|k2: Seq<char>, n2: Seq<char>, t2: Seq<char>|
                    #[trigger] config_mentions(sources@, k2, n2, t2) implies config_mentions(
                    pre,
                    k2,
                    n2,
                    t2,
                ) by {
                    let s2 = choose|s2: int|
                        0 <= s2 < sources@.len() && (#[trigger] sources@[s2]).ty@ == k2
                            && src_mentions(sources@[s2], n2, t2);
                    if s2 < ni {
                        assert(pre[s2].ty@ == k2 && src_mentions(pre[s2], n2, t2));
                    } else {
                        let bi = choose|bi: int|
                            0 <= bi < sources@[s2].bindings@.len() && (
                            #[trigger] sources@[s2].bindings@[bi]).0@ == n2 && texts_contain(
                                sources@[s2].bindings@[bi].1@,
                                t2,
                            );
                        assert(false);
                    }
                }
                assert forall|k2: Seq<char>, n2: Seq<char>, t2: Seq<char>|
                    config_mentions(pre, k2, n2, t2) implies #[trigger] config_mentions(
                    sources@,
                    k2,
                    n2,
                    t2,
                ) by {
                    let s2 = choose|s2: int|
                        0 <= s2 < pre.len() && (#[trigger] pre[s2]).ty@ == k2 && src_mentions(
                            pre[s2],
                            n2,
                            t2,
                        );
                    assert(sources@[s2].ty@ == k2 && src_mentions(sources@[s2], n2, t2));
                }
                // Appending an empty section leaves every count unchanged.
                lemma_kind_idx_unique(sources@, ni, kind@);
                assert forall|k2: Seq<char>, n2: Seq<char>, t2: Seq<char>|
                    #[trigger] mention_count(sources@, k2, n2, t2) == mention_count(
                    pre,
                    k2,
                    n2,
                    t2,
                ) by {
                    if k2 == kind@ {
                        assert(!has_kind(pre, kind@));
                        assert(!has_entry(sources@[ni].bindings@, n2)) by {
                            if has_entry(sources@[ni].bindings@, n2) {
                                let bi = entry_idx(sources@[ni].bindings@, n2);
                            }
                        }
                    } else {
                        if has_kind(pre, k2) {
                            let j = kind_idx(pre, k2);
                            assert(pre[j].ty@ == k2);
                            lemma_kind_idx_unique(pre, j, k2);
                            assert(sources@[j] == pre[j]);
                            lemma_kind_idx_unique(sources@, j, k2);
                        } else {
                            if has_kind(sources@, k2) {
                                let j = kind_idx(sources@, k2);
                                assert(sources@[j].ty@ == k2);
                                assert(j != ni);
                                assert(pre[j].ty@ == k2);
                                assert(has_kind(pre, k2));
                            }
                        }
                    }
                }
            }
            sources.len() - 1
        },
    };
    let ghost mid = sources@;
    proof {
        lemma_kind_idx_unique(mid, si as int, kind@);
    }
    match find_name(&sources[si].bindings, &name) {
        Option::Some(bi) => {
            let ghost nm = name@;
            let s = &mut sources[si];
            let e = &mut s.bindings[bi];
            e.1.push(text.clone());
            proof {
                lemma_add_text_existing(mid, sources@, si as int, bi as int, kind@, nm, text@);
                assert forall|k2: Seq<char>, n2: Seq<char>, t2: Seq<char>|
                    #[trigger] mention_count(sources@, k2, n2, t2) == mention_count(
                    old(sources)@,
                    k2,
                    n2,
                    t2,
                ) + (if k2 == kind@ && n2 == nm && t2 == text@ {
                    1nat
                } else {
                    0nat
                }) by {
                    assert(mention_count(mid, k2, n2, t2) == mention_count(
                        old(sources)@,
                        k2,
                        n2,
                        t2,
                    ));
                }
                if sources_nonempty(old(sources)@) {
                    assert(forall|s2: int|
                        0 <= s2 < mid.len() && s2 != si ==> (#[trigger] mid[s2]).bindings@.len() > 0
                            && entries_nonempty(mid[s2].bindings@));
                    assert(entries_nonempty(mid[si as int].bindings@));
                    assert(sources_nonempty(sources@));
                }
            }
        },
        Option::None => {
            let pos = find_insert_pos(&sources[si].bindings, &name);
            let ghost nm = name@;
            let mut texts: Vec<String> = Vec::new();
            texts.push(text.clone());
            let ghost elt0 = (name, texts);
            let s = &mut sources[si];
            s.bindings.insert(pos, (name, texts));
            proof {
                let pre_b = mid[si as int].bindings@;
                pre_b.insert_ensures(pos as int, elt0);
                assert(sources@[si as int].bindings@ == pre_b.insert(pos as int, elt0));
                assert(sources@[si as int].bindings@[pos as int].0@ == nm);
                assert(sources@[si as int].bindings@[pos as int].1@.len() == 1);
                assert(sources@[si as int].bindings@[pos as int].1@[0]@ == text@);
                lemma_add_text_inserted(mid, sources@, si as int, pos as int, kind@, nm, text@);
                assert forall|k2: Seq<char>, n2: Seq<char>, t2: Seq<char>|
                    #[trigger] mention_count(sources@, k2, n2, t2) == mention_count(
                    old(sources)@,
                    k2,
                    n2,
                    t2,
                ) + (if k2 == kind@ && n2 == nm && t2 == text@ {
                    1nat
                } else {
                    0nat
                }) by {
                    assert(mention_count(sources@, k2, n2, t2) == mention_count(mid, k2, n2, t2)
                        + (if k2 == kind@ && n2 == nm && t2 == text@ {
                        1nat
                    } else {
                        0nat
                    }));
                    assert(mention_count(mid, k2, n2, t2) == mention_count(
                        old(sources)@,
                        k2,
                        n2,
                        t2,
                    ));
                }
                if sources_nonempty(old(sources)@) {
                    assert forall|s2: int|
                        0 <= s2 < mid.len() && s2 != si implies ((
                    #[trigger] mid[s2]).bindings@.len() > 0 && entries_nonempty(
                        mid[s2].bindings@,
                    )) by {
                        assert(mid[s2] == old(sources)@[s2]);
                    }
                    assert(entries_nonempty(mid[si as int].bindings@)) by {
                        if (si as int) < old(sources)@.len() {
                            assert(mid[si as int] == old(sources)@[si as int]);
                        } else {
                            assert(mid[si as int].bindings@.len() == 0);
                        }
                    }
                    assert(sources_nonempty(sources@));
                }
            }
        },
    }
}

/// Pushing one more textual form onto the entry `bi` of source `si`
/// extends the mention relation by exactly the one new triple.
proof fn lemma_add_text_existing(
    pre: Seq<SourceConfig>,
    post: Seq<SourceConfig>,
    si: int,
    bi: int,
    kind: Seq<char>,
    name: Seq<char>,
    text: Seq<char>,
)
    requires
        sources_wf(pre),
        0 <= si < pre.len(),
        pre[si].ty@ == kind,
        0 <= bi < pre[si].bindings@.len(),
        pre[si].bindings@[bi].0@ == name,
        post.len() == pre.len(),
        forall|j: int| 0 <= j < pre.len() && j != si ==> post[j] == pre[j],
        post[si].ty@ == kind,
        post[si].bindings@.len() == pre[si].bindings@.len(),
        forall|j: int|
            0 <= j < pre[si].bindings@.len() && j != bi ==> post[si].bindings@[j]
                == pre[si].bindings@[j],
        post[si].bindings@[bi].0@ == name,
        post[si].bindings@[bi].1@.len() == pre[si].bindings@[bi].1@.len() + 1,
        forall|t: int|
            0 <= t < pre[si].bindings@[bi].1@.len() ==> post[si].bindings@[bi].1@[t]
                == pre[si].bindings@[bi].1@[t],
        post[si].bindings@[bi].1@[pre[si].bindings@[bi].1@.len() as int]@ == text,
    ensures
        sources_wf(post),
        forall|k2: Seq<char>, n2: Seq<char>, t2: Seq<char>|
            #[trigger] config_mentions(post, k2, n2, t2) <==> (config_mentions(pre, k2, n2, t2) || (
            k2 == kind && n2 == name && t2 == text)),
        ((forall|s2: int|
            0 <= s2 < pre.len() && s2 != si ==> (#[trigger] pre[s2]).bindings@.len() > 0
                && entries_nonempty(pre[s2].bindings@)) && entries_nonempty(pre[si].bindings@))
            ==> sources_nonempty(post),
        forall|k2: Seq<char>, n2: Seq<char>, t2: Seq<char>|
            #[trigger] mention_count(post, k2, n2, t2) == mention_count(pre, k2, n2, t2) + (if k2
                == kind && n2 == name && t2 == text {
                1nat
            } else {
                0nat
            }),
{
    if (forall|s2: int|
        0 <= s2 < pre.len() && s2 != si ==> (#[trigger] pre[s2]).bindings@.len() > 0
            && entries_nonempty(pre[s2].bindings@)) && entries_nonempty(pre[si].bindings@) {
        assert forall|s2: int|
            0 <= s2 < post.len() implies ((#[trigger] post[s2]).bindings@.len() > 0
            && entries_nonempty(post[s2].bindings@)) by {
            if s2 != si {
                assert(post[s2] == pre[s2]);
            } else {
                assert(0 <= bi < pre[si].bindings@.len());
                assert forall|bi2: int|
                    0 <= bi2 < post[si].bindings@.len() implies (
                #[trigger] post[si].bindings@[bi2]).1@.len() > 0 by {
                    if bi2 == bi {
                    } else {
                        assert(post[si].bindings@[bi2] == pre[si].bindings@[bi2]);
                    }
                }
            }
        }
    }
    assert(sources_wf(post)) by {
        assert forall|p: int, q: int|
            0 <= p < q < post.len() implies (#[trigger] post[p]).ty@ != (
        #[trigger] post[q]).ty@ by {
            assert(pre[p].ty@ != pre[q].ty@);
            assert(post[p].ty@ == pre[p].ty@);
            assert(post[q].ty@ == pre[q].ty@);
        }
        assert forall|s2: int| 0 <= s2 < post.len() implies names_sorted(
            (#[trigger] post[s2]).bindings@,
        ) by {
            assert(names_sorted(pre[s2].bindings@));
            if s2 == si {
                assert forall|p: int, q: int|
                    0 <= p < q < post[s2].bindings@.len() implies lex_lt(
                    (#[trigger] post[s2].bindings@[p]).0@,
                    (#[trigger] post[s2].bindings@[q]).0@,
                ) by {
                    assert(lex_lt(pre[s2].bindings@[p].0@, pre[s2].bindings@[q].0@));
                    assert(post[s2].bindings@[p].0@ == pre[s2].bindings@[p].0@);
                    assert(post[s2].bindings@[q].0@ == pre[s2].bindings@[q].0@);
                }
            }
        }
    }
    assert forall|k2: Seq<char>, n2: Seq<char>, t2: Seq<char>|
        #[trigger] config_mentions(post, k2, n2, t2) implies (config_mentions(pre, k2, n2, t2) || (
    k2 == kind && n2 == name && t2 == text)) by {
        let s2 = choose|s2: int|
            0 <= s2 < post.len() && (#[trigger] post[s2]).ty@ == k2 && src_mentions(
                post[s2],
                n2,
                t2,
            );
        if s2 != si {
            assert(pre[s2].ty@ == k2 && src_mentions(pre[s2], n2, t2));
        } else {
            let b2 = choose|b2: int|
                0 <= b2 < post[s2].bindings@.len() && (#[trigger] post[s2].bindings@[b2]).0@ == n2
                    && texts_contain(post[s2].bindings@[b2].1@, t2);
            if b2 != bi {
                assert(pre[s2].bindings@[b2].0@ == n2);
                assert(texts_contain(pre[s2].bindings@[b2].1@, t2));
                assert(src_mentions(pre[s2], n2, t2));
                assert(config_mentions(pre, k2, n2, t2));
            } else {
                let t3 = choose|t3: int|
                    0 <= t3 < post[s2].bindings@[b2].1@.len() && (
                    #[trigger] post[s2].bindings@[b2].1@[t3])@ == t2;
                if t3 < pre[si].bindings@[bi].1@.len() {
                    assert(pre[s2].bindings@[b2].1@[t3]@ == t2);
                    assert(texts_contain(pre[s2].bindings@[b2].1@, t2));
                    assert(src_mentions(pre[s2], n2, t2));
                    assert(config_mentions(pre, k2, n2, t2));
                } else {
                    assert(t2 == text && n2 == name && k2 == kind);
                }
            }
        }
    }
    assert forall|k2: Seq<char>, n2: Seq<char>, t2: Seq<char>|
        (config_mentions(pre, k2, n2, t2) || (k2 == kind && n2 == name && t2 == text)) implies
        #[trigger] config_mentions(post, k2, n2, t2) by {
        if config_mentions(pre, k2, n2, t2) {
            let s2 = choose|s2: int|
                0 <= s2 < pre.len() && (#[trigger] pre[s2]).ty@ == k2 && src_mentions(
                    pre[s2],
                    n2,
                    t2,
                );
            if s2 != si {
                assert(post[s2].ty@ == k2 && src_mentions(post[s2], n2, t2));
            } else {
                let b2 = choose|b2: int|
                    0 <= b2 < pre[s2].bindings@.len() && (#[trigger] pre[s2].bindings@[b2]).0@
                        == n2 && texts_contain(pre[s2].bindings@[b2].1@, t2);
                if b2 != bi {
                    assert(post[s2].bindings@[b2].0@ == n2);
                    assert(texts_contain(post[s2].bindings@[b2].1@, t2));
                } else {
                    let t3 = choose|t3: int|
                        0 <= t3 < pre[s2].bindings@[b2].1@.len() && (
                        #[trigger] pre[s2].bindings@[b2].1@[t3])@ == t2;
                    assert(post[s2].bindings@[b2].1@[t3]@ == t2);
                    assert(texts_contain(post[s2].bindings@[b2].1@, t2));
                }
                assert(src_mentions(post[s2], n2, t2));
                assert(config_mentions(post, k2, n2, t2));
            }
        }
        if k2 == kind && n2 == name && t2 == text {
            let nt = pre[si].bindings@[bi].1@.len() as int;
            assert(post[si].bindings@[bi].1@[nt]@ == t2);
            assert(texts_contain(post[si].bindings@[bi].1@, t2));
            assert(src_mentions(post[si], n2, t2));
            assert(config_mentions(post, k2, n2, t2));
        }
    }
    lemma_kind_idx_unique(pre, si, kind);
    lemma_kind_idx_unique(post, si, kind);
    lemma_entry_idx_unique(pre[si].bindings@, bi, name);
    lemma_entry_idx_unique(post[si].bindings@, bi, name);
    let pre_list = pre[si].bindings@[bi].1@;
    let post_list = post[si].bindings@[bi].1@;
    assert(post_list =~= pre_list.push(post_list.last()));
    assert(post_list.last()@ == text);
    assert forall|k2: Seq<char>, n2: Seq<char>, t2: Seq<char>|
        #[trigger] mention_count(post, k2, n2, t2) == mention_count(pre, k2, n2, t2) + (if k2
            == kind && n2 == name && t2 == text {
            1nat
        } else {
            0nat
        }) by {
        if k2 == kind {
            if n2 == name {
                lemma_text_count_push(pre_list, post_list.last(), t2);
            } else {
                if has_entry(pre[si].bindings@, n2) {
                    let j = entry_idx(pre[si].bindings@, n2);
                    assert(pre[si].bindings@[j].0@ == n2);
                    lemma_entry_idx_unique(pre[si].bindings@, j, n2);
                    assert(j != bi);
                    assert(post[si].bindings@[j] == pre[si].bindings@[j]);
                    lemma_entry_idx_unique(post[si].bindings@, j, n2);
                } else {
                    if has_entry(post[si].bindings@, n2) {
                        let j = entry_idx(post[si].bindings@, n2);
                        assert(post[si].bindings@[j].0@ == n2);
                        assert(j != bi);
                        assert(pre[si].bindings@[j].0@ == n2);
                        assert(has_entry(pre[si].bindings@, n2));
                    }
                }
            }
        } else {
            if has_kind(pre, k2) {
                let j = kind_idx(pre, k2);
                assert(pre[j].ty@ == k2);
                lemma_kind_idx_unique(pre, j, k2);
                assert(j != si);
                assert(post[j] == pre[j]);
                lemma_kind_idx_unique(post, j, k2);
            } else {
                if has_kind(post, k2) {
                    let j = kind_idx(post, k2);
                    assert(post[j].ty@ == k2);
                    assert(j != si);
                    assert(pre[j].ty@ == k2);
                    assert(has_kind(pre, k2));
                }
            }
        }
    }
}

/// Inserting a fresh entry named `name`, holding only `text`, at its
/// sorted position in source `si` extends the mention relation by exactly
/// the one new triple.
proof fn lemma_add_text_inserted(
    pre: Seq<SourceConfig>,
    post: Seq<SourceConfig>,
    si: int,
    pos: int,
    kind: Seq<char>,
    name: Seq<char>,
    text: Seq<char>,
)
    requires
        sources_wf(pre),
        0 <= si < pre.len(),
        pre[si].ty@ == kind,
        0 <= pos <= pre[si].bindings@.len(),
        forall|j: int| 0 <= j < pos ==> lex_lt((#[trigger] pre[si].bindings@[j]).0@, name),
        forall|j: int|
            pos <= j < pre[si].bindings@.len() ==> lex_lt(name, (#[trigger] pre[si].bindings@[j]).0@),
        post.len() == pre.len(),
        forall|j: int| 0 <= j < pre.len() && j != si ==> post[j] == pre[j],
        post[si].ty@ == kind,
        post[si].bindings@.len() == pre[si].bindings@.len() + 1,
        forall|j: int| 0 <= j < pos ==> post[si].bindings@[j] == pre[si].bindings@[j],
        forall|j: int|
            pos <= j < pre[si].bindings@.len() ==> post[si].bindings@[j + 1] == pre[si].bindings@[j],
        post[si].bindings@[pos].0@ == name,
        post[si].bindings@[pos].1@.len() == 1,
        post[si].bindings@[pos].1@[0]@ == text,
    ensures
        sources_wf(post),
        forall|k2: Seq<char>, n2: Seq<char>, t2: Seq<char>|
            #[trigger] config_mentions(post, k2, n2, t2) <==> (config_mentions(pre, k2, n2, t2) || (
            k2 == kind && n2 == name && t2 == text)),
        ((forall|s2: int|
            0 <= s2 < pre.len() && s2 != si ==> (#[trigger] pre[s2]).bindings@.len() > 0
                && entries_nonempty(pre[s2].bindings@)) && entries_nonempty(pre[si].bindings@))
            ==> sources_nonempty(post),
        forall|k2: Seq<char>, n2: Seq<char>, t2: Seq<char>|
            #[trigger] mention_count(post, k2, n2, t2) == mention_count(pre, k2, n2, t2) + (if k2
                == kind && n2 == name && t2 == text {
                1nat
            } else {
                0nat
            }),
{
    if (forall|s2: int|
        0 <= s2 < pre.len() && s2 != si ==> (#[trigger] pre[s2]).bindings@.len() > 0
            && entries_nonempty(pre[s2].bindings@)) && entries_nonempty(pre[si].bindings@) {
        assert forall|s2: int|
            0 <= s2 < post.len() implies ((#[trigger] post[s2]).bindings@.len() > 0
            && entries_nonempty(post[s2].bindings@)) by {
            if s2 != si {
                assert(post[s2] == pre[s2]);
            } else {
                assert forall|bi2: int|
                    0 <= bi2 < post[si].bindings@.len() implies (
                #[trigger] post[si].bindings@[bi2]).1@.len() > 0 by {
                    if bi2 < pos {
                        assert(post[si].bindings@[bi2] == pre[si].bindings@[bi2]);
                    } else if bi2 == pos {
                    } else {
                        assert(post[si].bindings@[bi2] == pre[si].bindings@[bi2 - 1]);
                    }
                }
            }
        }
    }
    assert(sources_wf(post)) by {
        assert forall|p: int, q: int|
            0 <= p < q < post.len() implies (#[trigger] post[p]).ty@ != (
        #[trigger] post[q]).ty@ by {
            assert(pre[p].ty@ != pre[q].ty@);
            assert(post[p].ty@ == pre[p].ty@);
            assert(post[q].ty@ == pre[q].ty@);
        }
        assert forall|s2: int| 0 <= s2 < post.len() implies names_sorted(
            (#[trigger] post[s2]).bindings@,
        ) by {
            assert(names_sorted(pre[s2].bindings@));
            if s2 == si {
                assert forall|p: int, q: int|
                    0 <= p < q < post[s2].bindings@.len() implies lex_lt(
                    (#[trigger] post[s2].bindings@[p]).0@,
                    (#[trigger] post[s2].bindings@[q]).0@,
                ) by {
                    if q < pos {
                        assert(lex_lt(pre[s2].bindings@[p].0@, pre[s2].bindings@[q].0@));
                    } else if q == pos {
                        assert(post[s2].bindings@[p] == pre[s2].bindings@[p]);
                        assert(lex_lt(pre[s2].bindings@[p].0@, name));
                    } else {
                        assert(post[s2].bindings@[q] == pre[s2].bindings@[q - 1]);
                        if p == pos {
                            assert(lex_lt(name, pre[s2].bindings@[q - 1].0@));
                        } else if p < pos {
                            assert(post[s2].bindings@[p] == pre[s2].bindings@[p]);
                            assert(lex_lt(pre[s2].bindings@[p].0@, pre[s2].bindings@[q - 1].0@));
                        } else {
                            assert(post[s2].bindings@[p] == pre[s2].bindings@[p - 1]);
                            assert(lex_lt(
                                pre[s2].bindings@[p - 1].0@,
                                pre[s2].bindings@[q - 1].0@,
                            ));
                        }
                    }
                }
            }
        }
    }
    assert forall|k2: Seq<char>, n2: Seq<char>, t2: Seq<char>|
        #[trigger] config_mentions(post, k2, n2, t2) implies (config_mentions(pre, k2, n2, t2) || (
    k2 == kind && n2 == name && t2 == text)) by {
        let s2 = choose|s2: int|
            0 <= s2 < post.len() && (#[trigger] post[s2]).ty@ == k2 && src_mentions(
                post[s2],
                n2,
                t2,
            );
        if s2 != si {
            assert(pre[s2].ty@ == k2 && src_mentions(pre[s2], n2, t2));
        } else {
            let b2 = choose|b2: int|
                0 <= b2 < post[s2].bindings@.len() && (#[trigger] post[s2].bindings@[b2]).0@ == n2
                    && texts_contain(post[s2].bindings@[b2].1@, t2);
            if b2 < pos {
                assert(pre[s2].bindings@[b2].0@ == n2);
                assert(texts_contain(pre[s2].bindings@[b2].1@, t2));
                assert(src_mentions(pre[s2], n2, t2));
                assert(config_mentions(pre, k2, n2, t2));
            } else if b2 == pos {
                let t3 = choose|t3: int|
                    0 <= t3 < post[s2].bindings@[b2].1@.len() && (
                    #[trigger] post[s2].bindings@[b2].1@[t3])@ == t2;
                assert(t3 == 0);
                assert(t2 == text && n2 == name && k2 == kind);
            } else {
                assert(post[s2].bindings@[b2] == pre[s2].bindings@[b2 - 1]);
                assert(pre[s2].bindings@[b2 - 1].0@ == n2);
                assert(texts_contain(pre[s2].bindings@[b2 - 1].1@, t2));
                assert(src_mentions(pre[s2], n2, t2));
                assert(config_mentions(pre, k2, n2, t2));
            }
        }
    }
    assert forall|k2: Seq<char>, n2: Seq<char>, t2: Seq<char>|
        (config_mentions(pre, k2, n2, t2) || (k2 == kind && n2 == name && t2 == text)) implies
        #[trigger] config_mentions(post, k2, n2, t2) by {
        if config_mentions(pre, k2, n2, t2) {
            let s2 = choose|s2: int|
                0 <= s2 < pre.len() && (#[trigger] pre[s2]).ty@ == k2 && src_mentions(
                    pre[s2],
                    n2,
                    t2,
                );
            if s2 != si {
                assert(post[s2].ty@ == k2 && src_mentions(post[s2], n2, t2));
            } else {
                let b2 = choose|b2: int|
                    0 <= b2 < pre[s2].bindings@.len() && (#[trigger] pre[s2].bindings@[b2]).0@
                        == n2 && texts_contain(pre[s2].bindings@[b2].1@, t2);
                if b2 < pos {
                    assert(post[s2].bindings@[b2] == pre[s2].bindings@[b2]);
                    assert(src_mentions(post[s2], n2, t2));
                } else {
                    assert(post[s2].bindings@[b2 + 1] == pre[s2].bindings@[b2]);
                    assert((#[trigger] post[s2].bindings@[b2 + 1]).0@ == n2);
                    assert(texts_contain(post[s2].bindings@[b2 + 1].1@, t2));
                    assert(src_mentions(post[s2], n2, t2));
                }
                assert(config_mentions(post, k2, n2, t2));
            }
        }
        if k2 == kind && n2 == name && t2 == text {
            assert(post[si].bindings@[pos].1@[0]@ == t2);
            assert(texts_contain(post[si].bindings@[pos].1@, t2));
            assert(src_mentions(post[si], n2, t2));
            assert(config_mentions(post, k2, n2, t2));
        }
    }
    lemma_kind_idx_unique(pre, si, kind);
    lemma_kind_idx_unique(post, si, kind);
    lemma_lex_irrefl(name);
    assert(!has_entry(pre[si].bindings@, name)) by {
        if has_entry(pre[si].bindings@, name) {
            let j = entry_idx(pre[si].bindings@, name);
            assert(pre[si].bindings@[j].0@ == name);
            if j < pos {
                assert(lex_lt(pre[si].bindings@[j].0@, name));
            } else {
                assert(lex_lt(name, pre[si].bindings@[j].0@));
            }
        }
    }
    lemma_entry_idx_unique(post[si].bindings@, pos, name);
    let new_list = post[si].bindings@[pos].1@;
    assert(new_list.drop_first() =~= Seq::<String>::empty());
    assert forall|k2: Seq<char>, n2: Seq<char>, t2: Seq<char>|
        #[trigger] mention_count(post, k2, n2, t2) == mention_count(pre, k2, n2, t2) + (if k2
            == kind && n2 == name && t2 == text {
            1nat
        } else {
            0nat
        }) by {
        if k2 == kind {
            if n2 == name {
                assert(text_count(new_list.drop_first(), t2) == 0);
                assert(text_count(new_list, t2) == (if new_list[0]@ == t2 {
                    1nat
                } else {
                    0nat
                }));
            } else {
                if has_entry(pre[si].bindings@, n2) {
                    let j = entry_idx(pre[si].bindings@, n2);
                    assert(pre[si].bindings@[j].0@ == n2);
                    lemma_entry_idx_unique(pre[si].bindings@, j, n2);
                    if j < pos {
                        assert(post[si].bindings@[j] == pre[si].bindings@[j]);
                        lemma_entry_idx_unique(post[si].bindings@, j, n2);
                    } else {
                        assert(post[si].bindings@[j + 1] == pre[si].bindings@[j]);
                        lemma_entry_idx_unique(post[si].bindings@, j + 1, n2);
                    }
                } else {
                    if has_entry(post[si].bindings@, n2) {
                        let j = entry_idx(post[si].bindings@, n2);
                        assert(post[si].bindings@[j].0@ == n2);
                        assert(j != pos);
                        if j < pos {
                            assert(pre[si].bindings@[j].0@ == n2);
                            assert(has_entry(pre[si].bindings@, n2));
                        } else {
                            assert(post[si].bindings@[j] == pre[si].bindings@[j - 1]);
                            assert(pre[si].bindings@[j - 1].0@ == n2);
                            assert(has_entry(pre[si].bindings@, n2));
                        }
                    }
                }
            }
        } else {
            if has_kind(pre, k2) {
                let j = kind_idx(pre, k2);
                assert(pre[j].ty@ == k2);
                lemma_kind_idx_unique(pre, j, k2);
                assert(j != si);
                assert(post[j] == pre[j]);
                lemma_kind_idx_unique(post, j, k2);
            } else {
                if has_kind(post, k2) {
                    let j = kind_idx(post, k2);
                    assert(post[j].ty@ == k2);
                    assert(j != si);
                    assert(pre[j].ty@ == k2);
                    assert(has_kind(pre, k2));
                }
            }
        }
    }
}

} // verus!
