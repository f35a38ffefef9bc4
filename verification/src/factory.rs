//! Loading serialized configurations into bindings.
//!
//! A factory is an explicit registry, built by the caller and passed by
//! value — never ambient state — that maps input-source names to the
//! vocabulary needed to parse their textual input forms, and records which
//! filter kinds may be loaded. Loading is best-effort: every malformed
//! entry is recorded as an error and skipped, and every well-formed entry
//! still takes effect.

use vstd::prelude::*;

use crate::bindings::Bindings;
use crate::config::Config;
use crate::config::SourceConfig;
use crate::graph::dpad_created_until_collision;
use crate::graph::dpad_first_collision;
use crate::graph::dpad_kind_name;
use crate::graph::dpad_source_name;
use crate::graph::dpad_sources_ok;
use crate::graph::DPad;
use crate::graph::Filter;
use crate::graph::FilterConfig;
use crate::graph::FilterLoadError;
use crate::input::Input;
use crate::input::InputModel;
use crate::session::ActionModel;
use crate::session::Session;
use crate::types::Action;
use crate::types::ActionId;
use crate::types::TypeError;
use crate::types::TypeTag;

verus! {

/// One entry of an input source's vocabulary: a textual form and the
/// payload types of the candidate inputs it parses to, in the order the
/// source enumerates them. At most one candidate of any given type exists.
#[derive(Clone, Debug)]
pub struct VocabEntry {
    pub text: String,
    pub tags: Vec<TypeTag>,
}

/// Description of one input source: its globally unique name, as used in
/// configuration files, and its vocabulary of textual input forms.
///
/// Parsing a textual form yields one candidate input per listed tag; an
/// unrecognized text yields no candidates, which is not an error.
#[derive(Clone, Debug)]
pub struct SourceSpec {
    pub name: String,
    pub vocab: Vec<VocabEntry>,
}

impl SourceSpec {
    /// Vocabulary texts are distinct.
    pub open spec fn wf(self) -> bool {
        forall|p: int, q: int|
            0 <= p < q < self.vocab@.len() ==> (#[trigger] self.vocab@[p]).text@ != (
            #[trigger] self.vocab@[q]).text@
    }
}

/// True when the vocabulary has an entry for `text`.
pub open spec fn vocab_has(sp: SourceSpec, text: Seq<char>) -> bool {
    exists|i: int| 0 <= i < sp.vocab@.len() && (#[trigger] sp.vocab@[i]).text@ == text
}

/// The index of the vocabulary entry for `text`; unique when well-formed.
pub open spec fn vocab_idx(sp: SourceSpec, text: Seq<char>) -> int {
    choose|i: int| 0 <= i < sp.vocab@.len() && (#[trigger] sp.vocab@[i]).text@ == text
}

/// The candidate payload types the source gives to `text`.
pub open spec fn vocab_tags(sp: SourceSpec, text: Seq<char>) -> Seq<TypeTag> {
    sp.vocab@[vocab_idx(sp, text)].tags@
}

/// True when some registered source is named `name`.
pub open spec fn has_src(specs: Seq<SourceSpec>, name: Seq<char>) -> bool {
    exists|i: int| 0 <= i < specs.len() && (#[trigger] specs[i]).name@ == name
}

/// The index of the registered source named `name`; unique when the
/// factory is well-formed.
pub open spec fn src_idx(specs: Seq<SourceSpec>, name: Seq<char>) -> int {
    choose|i: int| 0 <= i < specs.len() && (#[trigger] specs[i]).name@ == name
}

/// In a list of sources with distinct names an index whose source is named
/// `name` is the unique one, so it is the one `src_idx` denotes.
proof fn lemma_src_idx_unique(specs: Seq<SourceSpec>, i: int, name: Seq<char>)
    requires
        forall|p: int, q: int|
            0 <= p < q < specs.len() ==> (#[trigger] specs[p]).name@ != (#[trigger] specs[q]).name@,
        0 <= i < specs.len(),
        specs[i].name@ == name,
    ensures
        has_src(specs, name),
        src_idx(specs, name) == i,
{
    assert(has_src(specs, name));
    let j = src_idx(specs, name);
    assert(0 <= j < specs.len() && specs[j].name@ == name);
    if j < i {
        assert(specs[j].name@ != specs[i].name@);
    } else if j > i {
        assert(specs[i].name@ != specs[j].name@);
    }
}

/// In a well-formed vocabulary an index whose entry holds `text` is the
/// unique one, so it is the one `vocab_idx` denotes.
proof fn lemma_vocab_idx_unique(sp: SourceSpec, i: int, text: Seq<char>)
    requires
        sp.wf(),
        0 <= i < sp.vocab@.len(),
        sp.vocab@[i].text@ == text,
    ensures
        vocab_has(sp, text),
        vocab_idx(sp, text) == i,
{
    assert(vocab_has(sp, text));
    let j = vocab_idx(sp, text);
    assert(0 <= j < sp.vocab@.len() && sp.vocab@[j].text@ == text);
    if j < i {
        assert(sp.vocab@[j].text@ != sp.vocab@[i].text@);
    } else if j > i {
        assert(sp.vocab@[i].text@ != sp.vocab@[j].text@);
    }
}

/// Reasons why some part of a configuration might not be loaded. Each
/// error is fatal only to the one entry it describes.
#[derive(Clone, Debug)]
pub enum LoadError {
    /// The entry's input-source name was never registered with the
    /// factory.
    UnknownSource { name: String },
    /// The action name was not defined in the session.
    UnknownAction { name: String },
    /// A textual input form was not recognized by its source.
    UnknownInput { input: String },
    /// A textual input form parsed, but no candidate input produces data
    /// of the type the target action carries; lists the types of the
    /// candidates that were tried and rejected.
    InputTypeError {
        action_name: String,
        input: String,
        actual: TypeTag,
        expected: Vec<TypeTag>,
    },
    /// A filter entry could not be loaded.
    Filter(FilterLoadError),
}

impl From<FilterLoadError> for LoadError {
    fn from(value: FilterLoadError) -> (r: Self) {
        LoadError::Filter(value)
    }
}

impl vstd::std_specs::convert::FromSpecImpl<FilterLoadError> for LoadError {
    open spec fn obeys_from_spec() -> bool {
        true
    }

    open spec fn from_spec(value: FilterLoadError) -> Self {
        LoadError::Filter(value)
    }
}

/// Parses bindings for arbitrary registered input sources from serialized
/// form.
#[derive(Clone, Debug)]
pub struct BindingsFactory {
    /// The registered input sources.
    pub sources: Vec<SourceSpec>,
    /// Whether the directional-pad filter kind may be loaded.
    pub dpad_filter: bool,
}

/// True when the factory can load filter entries of `fc`'s kind: the
/// directional-pad kind is enabled and named.
pub open spec fn filter_registered(f: BindingsFactory, fc: FilterConfig) -> bool {
    f.dpad_filter && fc.ty@ == dpad_kind_name()
}

/// The session state after the source-action creation pass has processed
/// the first `k` filter entries, starting from `s0`: each registered entry
/// with exactly one target appends its derived direction actions, in
/// order, up to the first name collision; every other entry changes
/// nothing. This pass runs to completion before any filter body is
/// loaded, so filters can be chained regardless of declaration order.
pub open spec fn pass1_session(
    f: BindingsFactory,
    s0: Seq<ActionModel>,
    filters: Seq<FilterConfig>,
    k: int,
) -> Seq<ActionModel>
    decreases k,
{
    if k <= 0 {
        s0
    } else {
        let s = pass1_session(f, s0, filters, k - 1);
        let fc = filters[k - 1];
        if filter_registered(f, fc) && fc.targets@.len() == 1 {
            s + dpad_created_until_collision(s, fc.targets@[0]@, 0)
        } else {
            s
        }
    }
}

/// True when the filter entry `fc` loads against session `ss`: its kind is
/// registered, it declares exactly one target, its derived direction
/// actions exist as booleans, and the target resolves to a vector action.
pub open spec fn dpad_loadable(f: BindingsFactory, ss: Session, fc: FilterConfig) -> bool {
    &&& filter_registered(f, fc)
    &&& fc.targets@.len() == 1
    &&& dpad_sources_ok(ss, fc.targets@[0]@)
    &&& ss.has_name(fc.targets@[0]@)
    &&& ss@[ss.id_of(fc.targets@[0]@)].tag == TypeTag::Vec2
}

/// The directional-pad filter a loadable entry for target `base` resolves
/// to against session `ss`.
pub open spec fn dpad_loaded(ss: Session, base: Seq<char>) -> DPad {
    DPad {
        target: Action { id: ActionId(ss.id_of(base) as u32), tag: TypeTag::Vec2 },
        up: Action { id: ActionId(ss.id_of(dpad_source_name(base, 0)) as u32), tag: TypeTag::Bool },
        left: Action {
            id: ActionId(ss.id_of(dpad_source_name(base, 1)) as u32),
            tag: TypeTag::Bool,
        },
        down: Action {
            id: ActionId(ss.id_of(dpad_source_name(base, 2)) as u32),
            tag: TypeTag::Bool,
        },
        right: Action {
            id: ActionId(ss.id_of(dpad_source_name(base, 3)) as u32),
            tag: TypeTag::Bool,
        },
    }
}

/// The filters loaded from the first `k` filter entries against session
/// `ss`, in entry order: one per loadable entry, skipping the rest.
pub open spec fn loaded_filters(
    f: BindingsFactory,
    ss: Session,
    filters: Seq<FilterConfig>,
    k: int,
) -> Seq<Filter>
    decreases k,
{
    if k <= 0 {
        Seq::<Filter>::empty()
    } else {
        loaded_filters(f, ss, filters, k - 1) + (if dpad_loadable(f, ss, filters[k - 1]) {
            seq![Filter::DPad(dpad_loaded(ss, filters[k - 1].targets@[0]@))]
        } else {
            Seq::<Filter>::empty()
        })
    }
}

/// The index of the last filter in the list that consumes `a` as a
/// source, if any: a later filter displaces an earlier one on a shared
/// source.
pub open spec fn last_consumer(filters: Seq<Filter>, a: ActionId) -> Option<int>
    decreases filters.len(),
{
    if filters.len() == 0 {
        None
    } else if filters.last().spec_sources().contains(a) {
        Some(filters.len() - 1)
    } else {
        last_consumer(filters.drop_last(), a)
    }
}

/// Appending one filter routes its sources to it and leaves every other
/// action's consumer unchanged.
proof fn lemma_last_consumer_push(filters: Seq<Filter>, flt: Filter, a: ActionId)
    ensures
        last_consumer(filters.push(flt), a) == (if flt.spec_sources().contains(a) {
            Some(filters.len() as int)
        } else {
            last_consumer(filters, a)
        }),
{
    assert(filters.push(flt).drop_last() =~= filters);
    assert(filters.push(flt).last() == flt);
}

/// A filter entry causes a wrong-output-count error when its kind is
/// registered but it does not declare exactly one target.
pub open spec fn causes_wrong_output_count(
    f: BindingsFactory,
    filters: Seq<FilterConfig>,
    j: int,
) -> bool {
    &&& 0 <= j < filters.len()
    &&& filter_registered(f, filters[j])
    &&& filters[j].targets@.len() != 1
}

/// A filter entry causes a duplicate-source error for `nm` when, at its
/// turn in the creation pass, one of its derived direction names already
/// exists; `nm` is the first such name in direction order.
pub open spec fn causes_duplicate_source(
    f: BindingsFactory,
    s0: Seq<ActionModel>,
    filters: Seq<FilterConfig>,
    j: int,
    nm: Seq<char>,
) -> bool {
    &&& 0 <= j < filters.len()
    &&& filter_registered(f, filters[j])
    &&& filters[j].targets@.len() == 1
    &&& ({
        let s = pass1_session(f, s0, filters, j);
        let fc = dpad_first_collision(s, filters[j].targets@[0]@, 0);
        fc < 4 && nm == dpad_source_name(filters[j].targets@[0]@, fc)
    })
}

/// A filter entry causes an unknown-target error for `nm` when its
/// derived sources are in place but the named target action does not
/// exist in the final session.
pub open spec fn causes_unknown_target(
    f: BindingsFactory,
    ss: Session,
    filters: Seq<FilterConfig>,
    j: int,
    nm: Seq<char>,
) -> bool {
    &&& 0 <= j < filters.len()
    &&& filter_registered(f, filters[j])
    &&& filters[j].targets@.len() == 1
    &&& dpad_sources_ok(ss, filters[j].targets@[0]@)
    &&& !ss.has_name(filters[j].targets@[0]@)
    &&& nm == filters[j].targets@[0]@
}

/// A filter entry causes a filter type error when its derived sources are
/// in place and the target resolves, but not to a vector action.
pub open spec fn causes_filter_type_error(
    f: BindingsFactory,
    ss: Session,
    filters: Seq<FilterConfig>,
    j: int,
    fty: Seq<char>,
    act: Seq<char>,
    err: TypeError,
) -> bool {
    &&& 0 <= j < filters.len()
    &&& filter_registered(f, filters[j])
    &&& filters[j].targets@.len() == 1
    &&& dpad_sources_ok(ss, filters[j].targets@[0]@)
    &&& ss.has_name(filters[j].targets@[0]@)
    &&& ss@[ss.id_of(filters[j].targets@[0]@)].tag != TypeTag::Vec2
    &&& fty == dpad_kind_name()
    &&& act == filters[j].targets@[0]@
    &&& err == (TypeError {
        expected: TypeTag::Vec2,
        actual: ss@[ss.id_of(filters[j].targets@[0]@)].tag,
    })
}

/// How many errors the first `ti` textual forms of pair `bi` of a
/// registered, name-resolved source entry produce: one per unrecognized
/// text and one per text with no type-matching candidate.
pub open spec fn n_errs_texts(
    f: BindingsFactory,
    ss: Session,
    sc: SourceConfig,
    bi: int,
    ti: int,
) -> nat
    decreases ti,
{
    if ti <= 0 {
        0
    } else {
        n_errs_texts(f, ss, sc, bi, ti - 1) + ({
            let t = sc.bindings@[bi].1@[ti - 1]@;
            let sp = f.sources@[src_idx(f.sources@, sc.ty@)];
            if !vocab_has(sp, t) {
                1nat
            } else if !vocab_tags(sp, t).contains(ss@[ss.id_of(sc.bindings@[bi].0@)].tag) {
                1nat
            } else {
                0nat
            }
        })
    }
}

/// How many errors the first `bi` pairs of a registered source entry
/// produce: one per unresolved action name, else the pair's text errors.
pub open spec fn n_errs_pairs(f: BindingsFactory, ss: Session, sc: SourceConfig, bi: int) -> nat
    decreases bi,
{
    if bi <= 0 {
        0
    } else {
        n_errs_pairs(f, ss, sc, bi - 1) + (if !ss.has_name(sc.bindings@[bi - 1].0@) {
            1nat
        } else {
            n_errs_texts(f, ss, sc, bi - 1, sc.bindings@[bi - 1].1@.len() as int)
        })
    }
}

/// How many errors the first `si` source entries produce: one per
/// unregistered entry, else the entry's pair errors.
pub open spec fn n_errs_sources(
    f: BindingsFactory,
    ss: Session,
    cfgs: Seq<SourceConfig>,
    si: int,
) -> nat
    decreases si,
{
    if si <= 0 {
        0
    } else {
        n_errs_sources(f, ss, cfgs, si - 1) + (if !has_src(f.sources@, cfgs[si - 1].ty@) {
            1nat
        } else {
            n_errs_pairs(f, ss, cfgs[si - 1], cfgs[si - 1].bindings@.len() as int)
        })
    }
}

/// How many errors the creation pass produces for the first `k` filter
/// entries: one per unregistered entry, wrong target count, or name
/// collision at the entry's turn.
pub open spec fn n_errs_pass1(
    f: BindingsFactory,
    s0: Seq<ActionModel>,
    filters: Seq<FilterConfig>,
    k: int,
) -> nat
    decreases k,
{
    if k <= 0 {
        0
    } else {
        n_errs_pass1(f, s0, filters, k - 1) + ({
            let fc = filters[k - 1];
            if !filter_registered(f, fc) {
                1nat
            } else if fc.targets@.len() != 1 {
                1nat
            } else if dpad_first_collision(
                pass1_session(f, s0, filters, k - 1),
                fc.targets@[0]@,
                0,
            ) < 4 {
                1nat
            } else {
                0nat
            }
        })
    }
}

/// How many errors the body-loading pass produces for the first `k`
/// filter entries: one per entry whose derived sources are in place but
/// whose target is missing or wrongly typed.
pub open spec fn n_errs_pass2(
    f: BindingsFactory,
    ss: Session,
    filters: Seq<FilterConfig>,
    k: int,
) -> nat
    decreases k,
{
    if k <= 0 {
        0
    } else {
        n_errs_pass2(f, ss, filters, k - 1) + ({
            let fc = filters[k - 1];
            if filter_registered(f, fc) && fc.targets@.len() == 1 && dpad_sources_ok(
                ss,
                fc.targets@[0]@,
            ) && (!ss.has_name(fc.targets@[0]@) || ss@[ss.id_of(fc.targets@[0]@)].tag
                != TypeTag::Vec2) {
                1nat
            } else {
                0nat
            }
        })
    }
}

/// True when the error list records a wrong-output-count error expecting
/// `n` targets.
pub open spec fn errs_wrong_output_count(errs: Seq<LoadError>, n: usize) -> bool {
    exists|i: int|
        0 <= i < errs.len() && ((#[trigger] errs[i]) matches LoadError::Filter(
            FilterLoadError::WrongOutputCount { expected },
        ) && expected == n)
}

/// True when the error list records a duplicate-source error for `nm`.
pub open spec fn errs_duplicate_source(errs: Seq<LoadError>, nm: Seq<char>) -> bool {
    exists|i: int|
        0 <= i < errs.len() && ((#[trigger] errs[i]) matches LoadError::Filter(
            FilterLoadError::DuplicateSource { name },
        ) && name@ == nm)
}

/// True when the error list records an unknown-target error for `nm`.
pub open spec fn errs_unknown_target(errs: Seq<LoadError>, nm: Seq<char>) -> bool {
    exists|i: int|
        0 <= i < errs.len() && ((#[trigger] errs[i]) matches LoadError::Filter(
            FilterLoadError::UnknownTarget { output },
        ) && output@ == nm)
}

/// True when the error list records a filter type error with exactly
/// these fields.
pub open spec fn errs_filter_type_error(
    errs: Seq<LoadError>,
    fty: Seq<char>,
    act: Seq<char>,
    err: TypeError,
) -> bool {
    exists|i: int|
        0 <= i < errs.len() && ((#[trigger] errs[i]) matches LoadError::Filter(
            FilterLoadError::TypeError { filter_ty, action, error },
        ) && filter_ty@ == fty && action@ == act && error == err)
}

/// True when a later configuration entry for the same, registered source
/// name displaces entry `ci`: the later entry's bindings replace the
/// earlier entry's.
pub open spec fn shadowed(f: BindingsFactory, sources: Seq<SourceConfig>, ci: int) -> bool {
    exists|cj: int|
        ci < cj < sources.len() && (#[trigger] sources[cj]).ty@ == sources[ci].ty@ && has_src(
            f.sources@,
            sources[cj].ty@,
        )
}

/// True when position `(ci, bi, xi)` of the configuration's source
/// entries — entry `ci`, action-name pair `bi`, textual form `xi` — yields
/// a binding of input `im` to action `a` when loaded with factory `f`
/// against session `ss`: the entry's source is registered and not
/// displaced, the action name resolves in `ss`, the text is in the
/// source's vocabulary, and some candidate type matches the action's.
pub open spec fn pair_loads(
    f: BindingsFactory,
    ss: Session,
    sources: Seq<SourceConfig>,
    ci: int,
    bi: int,
    xi: int,
    im: InputModel,
    a: ActionId,
) -> bool {
    &&& 0 <= ci < sources.len()
    &&& 0 <= bi < sources[ci].bindings@.len()
    &&& 0 <= xi < sources[ci].bindings@[bi].1@.len()
    &&& im.source == sources[ci].ty@
    &&& sources[ci].bindings@[bi].1@[xi]@ == im.text
    &&& has_src(f.sources@, im.source)
    &&& !shadowed(f, sources, ci)
    &&& ss.has_name(sources[ci].bindings@[bi].0@)
    &&& 0 <= ss.id_of(sources[ci].bindings@[bi].0@) < ss@.len()
    &&& a.0 as int == ss.id_of(sources[ci].bindings@[bi].0@)
    &&& ss@[a.0 as int].tag == im.tag
    &&& vocab_has(f.sources@[src_idx(f.sources@, im.source)], im.text)
    &&& vocab_tags(f.sources@[src_idx(f.sources@, im.source)], im.text).contains(im.tag)
}

/// True when loading the configuration's source entries with factory `f`
/// against session `ss` binds input `im` to action `a`.
pub open spec fn loaded_binds(
    f: BindingsFactory,
    ss: Session,
    sources: Seq<SourceConfig>,
    im: InputModel,
    a: ActionId,
) -> bool {
    exists|ci: int, bi: int, xi: int| pair_loads(f, ss, sources, ci, bi, xi, im, a)
}

/// True when position `(ci, bi, xi)` comes strictly before position
/// `(si, pi, ti)` in loading order.
pub open spec fn pos_before(ci: int, bi: int, xi: int, si: int, pi: int, ti: int) -> bool {
    ci < si || (ci == si && (bi < pi || (bi == pi && xi < ti)))
}

/// The part of `loaded_binds` contributed by positions before
/// `(si, pi, ti)`.
pub open spec fn loaded_upto(
    f: BindingsFactory,
    ss: Session,
    sources: Seq<SourceConfig>,
    im: InputModel,
    a: ActionId,
    si: int,
    pi: int,
    ti: int,
) -> bool {
    exists|ci: int, bi: int, xi: int|
        pos_before(ci, bi, xi, si, pi, ti) && #[trigger] pair_loads(
            f,
            ss,
            sources,
            ci,
            bi,
            xi,
            im,
            a,
        )
}

/// One more textual form extends the partial loading relation by exactly
/// what that position yields.
proof fn lemma_loaded_upto_step(
    f: BindingsFactory,
    ss: Session,
    sources: Seq<SourceConfig>,
    si: int,
    pi: int,
    ti: int,
)
    ensures
        forall|im: InputModel, a: ActionId|
            #[trigger] loaded_upto(f, ss, sources, im, a, si, pi, ti + 1) <==> (loaded_upto(
                f,
                ss,
                sources,
                im,
                a,
                si,
                pi,
                ti,
            ) || pair_loads(f, ss, sources, si, pi, ti, im, a)),
{
    assert forall|im: InputModel, a: ActionId|
        #[trigger] loaded_upto(f, ss, sources, im, a, si, pi, ti + 1) <==> (loaded_upto(
            f,
            ss,
            sources,
            im,
            a,
            si,
            pi,
            ti,
        ) || pair_loads(f, ss, sources, si, pi, ti, im, a)) by {
        if loaded_upto(f, ss, sources, im, a, si, pi, ti + 1) {
            let (ci, bi, xi): (int, int, int) = choose|ci: int, bi: int, xi: int|
                pos_before(ci, bi, xi, si, pi, ti + 1) && #[trigger] pair_loads(
                    f,
                    ss,
                    sources,
                    ci,
                    bi,
                    xi,
                    im,
                    a,
                );
            if ci == si && bi == pi && xi == ti {
            } else {
                assert(pos_before(ci, bi, xi, si, pi, ti));
                assert(loaded_upto(f, ss, sources, im, a, si, pi, ti));
            }
        }
        if loaded_upto(f, ss, sources, im, a, si, pi, ti) {
            let (ci, bi, xi): (int, int, int) = choose|ci: int, bi: int, xi: int|
                pos_before(ci, bi, xi, si, pi, ti) && #[trigger] pair_loads(
                    f,
                    ss,
                    sources,
                    ci,
                    bi,
                    xi,
                    im,
                    a,
                );
            assert(pos_before(ci, bi, xi, si, pi, ti + 1));
            assert(loaded_upto(f, ss, sources, im, a, si, pi, ti + 1));
        }
        if pair_loads(f, ss, sources, si, pi, ti, im, a) {
            assert(pos_before(si, pi, ti, si, pi, ti + 1));
            assert(loaded_upto(f, ss, sources, im, a, si, pi, ti + 1));
        }
    }
}

/// Finishing the textual forms of pair `pi` moves the partial loading
/// relation to the start of the next pair.
proof fn lemma_loaded_upto_pair_boundary(
    f: BindingsFactory,
    ss: Session,
    sources: Seq<SourceConfig>,
    si: int,
    pi: int,
)
    requires
        0 <= si < sources.len(),
        0 <= pi < sources[si].bindings@.len(),
    ensures
        forall|im: InputModel, a: ActionId|
            #[trigger] loaded_upto(
                f,
                ss,
                sources,
                im,
                a,
                si,
                pi,
                sources[si].bindings@[pi].1@.len() as int,
            ) <==> loaded_upto(f, ss, sources, im, a, si, pi + 1, 0),
{
    let nt = sources[si].bindings@[pi].1@.len() as int;
    assert forall|im: InputModel, a: ActionId|
        #[trigger] loaded_upto(f, ss, sources, im, a, si, pi, nt) <==> loaded_upto(
            f,
            ss,
            sources,
            im,
            a,
            si,
            pi + 1,
            0,
        ) by {
        if loaded_upto(f, ss, sources, im, a, si, pi, nt) {
            let (ci, bi, xi): (int, int, int) = choose|ci: int, bi: int, xi: int|
                pos_before(ci, bi, xi, si, pi, nt) && #[trigger] pair_loads(
                    f,
                    ss,
                    sources,
                    ci,
                    bi,
                    xi,
                    im,
                    a,
                );
            assert(pos_before(ci, bi, xi, si, pi + 1, 0));
            assert(loaded_upto(f, ss, sources, im, a, si, pi + 1, 0));
        }
        if loaded_upto(f, ss, sources, im, a, si, pi + 1, 0) {
            let (ci, bi, xi): (int, int, int) = choose|ci: int, bi: int, xi: int|
                pos_before(ci, bi, xi, si, pi + 1, 0) && #[trigger] pair_loads(
                    f,
                    ss,
                    sources,
                    ci,
                    bi,
                    xi,
                    im,
                    a,
                );
            if ci == si && bi == pi {
                assert(xi < nt);
            }
            assert(pos_before(ci, bi, xi, si, pi, nt));
            assert(loaded_upto(f, ss, sources, im, a, si, pi, nt));
        }
    }
}

/// Finishing the pairs of entry `si` moves the partial loading relation to
/// the start of the next entry.
proof fn lemma_loaded_upto_entry_boundary(
    f: BindingsFactory,
    ss: Session,
    sources: Seq<SourceConfig>,
    si: int,
)
    requires
        0 <= si < sources.len(),
    ensures
        forall|im: InputModel, a: ActionId|
            #[trigger] loaded_upto(
                f,
                ss,
                sources,
                im,
                a,
                si,
                sources[si].bindings@.len() as int,
                0,
            ) <==> loaded_upto(f, ss, sources, im, a, si + 1, 0, 0),
{
    let np = sources[si].bindings@.len() as int;
    assert forall|im: InputModel, a: ActionId|
        #[trigger] loaded_upto(f, ss, sources, im, a, si, np, 0) <==> loaded_upto(
            f,
            ss,
            sources,
            im,
            a,
            si + 1,
            0,
            0,
        ) by {
        if loaded_upto(f, ss, sources, im, a, si, np, 0) {
            let (ci, bi, xi): (int, int, int) = choose|ci: int, bi: int, xi: int|
                pos_before(ci, bi, xi, si, np, 0) && #[trigger] pair_loads(
                    f,
                    ss,
                    sources,
                    ci,
                    bi,
                    xi,
                    im,
                    a,
                );
            assert(pos_before(ci, bi, xi, si + 1, 0, 0));
            assert(loaded_upto(f, ss, sources, im, a, si + 1, 0, 0));
        }
        if loaded_upto(f, ss, sources, im, a, si + 1, 0, 0) {
            let (ci, bi, xi): (int, int, int) = choose|ci: int, bi: int, xi: int|
                pos_before(ci, bi, xi, si + 1, 0, 0) && #[trigger] pair_loads(
                    f,
                    ss,
                    sources,
                    ci,
                    bi,
                    xi,
                    im,
                    a,
                );
            if ci == si {
                assert(bi < np);
            }
            assert(pos_before(ci, bi, xi, si, np, 0));
            assert(loaded_upto(f, ss, sources, im, a, si, np, 0));
        }
    }
}

/// An entry whose source name is not registered contributes nothing.
proof fn lemma_loaded_upto_entry_skip(
    f: BindingsFactory,
    ss: Session,
    sources: Seq<SourceConfig>,
    si: int,
)
    requires
        0 <= si < sources.len(),
        !has_src(f.sources@, sources[si].ty@),
    ensures
        forall|im: InputModel, a: ActionId|
            #[trigger] loaded_upto(f, ss, sources, im, a, si + 1, 0, 0) <==> loaded_upto(
                f,
                ss,
                sources,
                im,
                a,
                si,
                0,
                0,
            ),
{
    assert forall|im: InputModel, a: ActionId|
        #[trigger] loaded_upto(f, ss, sources, im, a, si + 1, 0, 0) <==> loaded_upto(
            f,
            ss,
            sources,
            im,
            a,
            si,
            0,
            0,
        ) by {
        if loaded_upto(f, ss, sources, im, a, si + 1, 0, 0) {
            let (ci, bi, xi): (int, int, int) = choose|ci: int, bi: int, xi: int|
                pos_before(ci, bi, xi, si + 1, 0, 0) && #[trigger] pair_loads(
                    f,
                    ss,
                    sources,
                    ci,
                    bi,
                    xi,
                    im,
                    a,
                );
            assert(ci != si);
            assert(pos_before(ci, bi, xi, si, 0, 0));
            assert(loaded_upto(f, ss, sources, im, a, si, 0, 0));
        }
        if loaded_upto(f, ss, sources, im, a, si, 0, 0) {
            let (ci, bi, xi): (int, int, int) = choose|ci: int, bi: int, xi: int|
                pos_before(ci, bi, xi, si, 0, 0) && #[trigger] pair_loads(
                    f,
                    ss,
                    sources,
                    ci,
                    bi,
                    xi,
                    im,
                    a,
                );
            assert(pos_before(ci, bi, xi, si + 1, 0, 0));
            assert(loaded_upto(f, ss, sources, im, a, si + 1, 0, 0));
        }
    }
}

/// A pair whose action name does not resolve contributes nothing.
proof fn lemma_loaded_upto_pair_skip(
    f: BindingsFactory,
    ss: Session,
    sources: Seq<SourceConfig>,
    si: int,
    pi: int,
)
    requires
        0 <= si < sources.len(),
        0 <= pi < sources[si].bindings@.len(),
        !ss.has_name(sources[si].bindings@[pi].0@),
    ensures
        forall|im: InputModel, a: ActionId|
            #[trigger] loaded_upto(f, ss, sources, im, a, si, pi + 1, 0) <==> loaded_upto(
                f,
                ss,
                sources,
                im,
                a,
                si,
                pi,
                0,
            ),
{
    assert forall|im: InputModel, a: ActionId|
        #[trigger] loaded_upto(f, ss, sources, im, a, si, pi + 1, 0) <==> loaded_upto(
            f,
            ss,
            sources,
            im,
            a,
            si,
            pi,
            0,
        ) by {
        if loaded_upto(f, ss, sources, im, a, si, pi + 1, 0) {
            let (ci, bi, xi): (int, int, int) = choose|ci: int, bi: int, xi: int|
                pos_before(ci, bi, xi, si, pi + 1, 0) && #[trigger] pair_loads(
                    f,
                    ss,
                    sources,
                    ci,
                    bi,
                    xi,
                    im,
                    a,
                );
            assert(!(ci == si && bi == pi));
            assert(pos_before(ci, bi, xi, si, pi, 0));
            assert(loaded_upto(f, ss, sources, im, a, si, pi, 0));
        }
        if loaded_upto(f, ss, sources, im, a, si, pi, 0) {
            let (ci, bi, xi): (int, int, int) = choose|ci: int, bi: int, xi: int|
                pos_before(ci, bi, xi, si, pi, 0) && #[trigger] pair_loads(
                    f,
                    ss,
                    sources,
                    ci,
                    bi,
                    xi,
                    im,
                    a,
                );
            assert(pos_before(ci, bi, xi, si, pi + 1, 0));
            assert(loaded_upto(f, ss, sources, im, a, si, pi + 1, 0));
        }
    }
}

/// Past the last entry the partial loading relation is the whole one.
proof fn lemma_loaded_upto_all(f: BindingsFactory, ss: Session, sources: Seq<SourceConfig>)
    ensures
        forall|im: InputModel, a: ActionId|
            #[trigger] loaded_upto(f, ss, sources, im, a, sources.len() as int, 0, 0)
                <==> loaded_binds(f, ss, sources, im, a),
{
    assert forall|im: InputModel, a: ActionId|
        #[trigger] loaded_upto(f, ss, sources, im, a, sources.len() as int, 0, 0) <==> loaded_binds(
            f,
            ss,
            sources,
            im,
            a,
        ) by {
        if loaded_upto(f, ss, sources, im, a, sources.len() as int, 0, 0) {
            let (ci, bi, xi): (int, int, int) = choose|ci: int, bi: int, xi: int|
                pos_before(ci, bi, xi, sources.len() as int, 0, 0) && #[trigger] pair_loads(
                    f,
                    ss,
                    sources,
                    ci,
                    bi,
                    xi,
                    im,
                    a,
                );
            assert(loaded_binds(f, ss, sources, im, a));
        }
        if loaded_binds(f, ss, sources, im, a) {
            let (ci, bi, xi): (int, int, int) = choose|ci: int, bi: int, xi: int|
                #[trigger] pair_loads(f, ss, sources, ci, bi, xi, im, a);
            assert(pos_before(ci, bi, xi, sources.len() as int, 0, 0));
            assert(loaded_upto(f, ss, sources, im, a, sources.len() as int, 0, 0));
        }
    }
}

/// True when the error list records an unknown-source error for `nm`.
pub open spec fn errs_unknown_source(errs: Seq<LoadError>, nm: Seq<char>) -> bool {
    exists|i: int|
        0 <= i < errs.len() && ((#[trigger] errs[i]) matches LoadError::UnknownSource { name }
            && name@ == nm)
}

/// True when the error list records an unknown-action error for `nm`.
pub open spec fn errs_unknown_action(errs: Seq<LoadError>, nm: Seq<char>) -> bool {
    exists|i: int|
        0 <= i < errs.len() && ((#[trigger] errs[i]) matches LoadError::UnknownAction { name }
            && name@ == nm)
}

/// True when the error list records an unrecognized-input error for
/// `text`.
pub open spec fn errs_unknown_input(errs: Seq<LoadError>, text: Seq<char>) -> bool {
    exists|i: int|
        0 <= i < errs.len() && ((#[trigger] errs[i]) matches LoadError::UnknownInput { input }
            && input@ == text)
}

/// True when the error list records an input-type error with exactly
/// these fields.
pub open spec fn errs_input_type_error(
    errs: Seq<LoadError>,
    nm: Seq<char>,
    text: Seq<char>,
    actual: TypeTag,
    expected: Seq<TypeTag>,
) -> bool {
    exists|i: int|
        0 <= i < errs.len() && ((
        #[trigger] errs[i]) matches LoadError::InputTypeError {
            action_name,
            input,
            actual: act,
            expected: exp,
        } && action_name@ == nm && input@ == text && act == actual && exp@ == expected)
}

/// True when the error list records an unknown-filter error for `ty`.
pub open spec fn errs_unknown_filter(errs: Seq<LoadError>, ty: Seq<char>) -> bool {
    exists|i: int|
        0 <= i < errs.len() && ((#[trigger] errs[i]) matches LoadError::Filter(
            FilterLoadError::UnknownFilter { ty: t },
        ) && t@ == ty)
}

/// A pair `(ci, bi)` of the configuration's source entries causes an
/// unknown-action error for `nm` when its entry's source is registered
/// but the action name does not resolve.
pub open spec fn causes_unknown_action(
    f: BindingsFactory,
    ss: Session,
    sources: Seq<SourceConfig>,
    ci: int,
    bi: int,
    nm: Seq<char>,
) -> bool {
    &&& 0 <= ci < sources.len()
    &&& 0 <= bi < sources[ci].bindings@.len()
    &&& has_src(f.sources@, sources[ci].ty@)
    &&& sources[ci].bindings@[bi].0@ == nm
    &&& !ss.has_name(nm)
}

/// A position `(ci, bi, xi)` causes an unrecognized-input error for
/// `text` when its entry's source is registered, its action name
/// resolves, but the text is not in the source's vocabulary.
pub open spec fn causes_unknown_input(
    f: BindingsFactory,
    ss: Session,
    sources: Seq<SourceConfig>,
    ci: int,
    bi: int,
    xi: int,
    text: Seq<char>,
) -> bool {
    &&& 0 <= ci < sources.len()
    &&& 0 <= bi < sources[ci].bindings@.len()
    &&& 0 <= xi < sources[ci].bindings@[bi].1@.len()
    &&& has_src(f.sources@, sources[ci].ty@)
    &&& ss.has_name(sources[ci].bindings@[bi].0@)
    &&& sources[ci].bindings@[bi].1@[xi]@ == text
    &&& !vocab_has(f.sources@[src_idx(f.sources@, sources[ci].ty@)], text)
}

/// A position `(ci, bi, xi)` causes an input-type error with these fields
/// when its entry's source is registered, its action name resolves, the
/// text parses, but no candidate type matches the action's.
pub open spec fn causes_input_type_error(
    f: BindingsFactory,
    ss: Session,
    sources: Seq<SourceConfig>,
    ci: int,
    bi: int,
    xi: int,
    nm: Seq<char>,
    text: Seq<char>,
    actual: TypeTag,
    expected: Seq<TypeTag>,
) -> bool {
    &&& 0 <= ci < sources.len()
    &&& 0 <= bi < sources[ci].bindings@.len()
    &&& 0 <= xi < sources[ci].bindings@[bi].1@.len()
    &&& has_src(f.sources@, sources[ci].ty@)
    &&& sources[ci].bindings@[bi].0@ == nm
    &&& ss.has_name(nm)
    &&& sources[ci].bindings@[bi].1@[xi]@ == text
    &&& vocab_has(f.sources@[src_idx(f.sources@, sources[ci].ty@)], text)
    &&& actual == ss@[ss.id_of(nm)].tag
    &&& expected == vocab_tags(f.sources@[src_idx(f.sources@, sources[ci].ty@)], text)
    &&& !vocab_tags(f.sources@[src_idx(f.sources@, sources[ci].ty@)], text).contains(actual)
}

/// True when pair `(ci, bi)` comes strictly before pair `(si, pi)` in
/// loading order.
pub open spec fn pos2_before(ci: int, bi: int, si: int, pi: int) -> bool {
    ci < si || (ci == si && bi < pi)
}

/// The unknown-action causes among pairs before `(si, pi)`.
pub open spec fn cause_ua_upto(
    f: BindingsFactory,
    ss: Session,
    sources: Seq<SourceConfig>,
    nm: Seq<char>,
    si: int,
    pi: int,
) -> bool {
    exists|ci: int, bi: int|
        pos2_before(ci, bi, si, pi) && #[trigger] causes_unknown_action(f, ss, sources, ci, bi, nm)
}

/// The unrecognized-input causes among positions before `(si, pi, ti)`.
pub open spec fn cause_ui_upto(
    f: BindingsFactory,
    ss: Session,
    sources: Seq<SourceConfig>,
    text: Seq<char>,
    si: int,
    pi: int,
    ti: int,
) -> bool {
    exists|ci: int, bi: int, xi: int|
        pos_before(ci, bi, xi, si, pi, ti) && #[trigger] causes_unknown_input(
            f,
            ss,
            sources,
            ci,
            bi,
            xi,
            text,
        )
}

/// The input-type-error causes among positions before `(si, pi, ti)`.
pub open spec fn cause_ite_upto(
    f: BindingsFactory,
    ss: Session,
    sources: Seq<SourceConfig>,
    nm: Seq<char>,
    text: Seq<char>,
    actual: TypeTag,
    expected: Seq<TypeTag>,
    si: int,
    pi: int,
    ti: int,
) -> bool {
    exists|ci: int, bi: int, xi: int|
        pos_before(ci, bi, xi, si, pi, ti) && #[trigger] causes_input_type_error(
            f,
            ss,
            sources,
            ci,
            bi,
            xi,
            nm,
            text,
            actual,
            expected,
        )
}

/// Advancing past pair `(si, pi)` extends the unknown-action causes by
/// exactly that pair's; and a pair in a skipped entry, or one whose name
/// resolves, contributes none.
proof fn lemma_ua_step(f: BindingsFactory, ss: Session, sources: Seq<SourceConfig>, si: int, pi: int)
    ensures
        forall|nm: Seq<char>|
            #[trigger] cause_ua_upto(f, ss, sources, nm, si, pi + 1) <==> (cause_ua_upto(
                f,
                ss,
                sources,
                nm,
                si,
                pi,
            ) || causes_unknown_action(f, ss, sources, si, pi, nm)),
{
    assert forall|nm: Seq<char>|
        #[trigger] cause_ua_upto(f, ss, sources, nm, si, pi + 1) <==> (cause_ua_upto(
            f,
            ss,
            sources,
            nm,
            si,
            pi,
        ) || causes_unknown_action(f, ss, sources, si, pi, nm)) by {
        if cause_ua_upto(f, ss, sources, nm, si, pi + 1) {
            let (ci, bi): (int, int) = choose|ci: int, bi: int|
                pos2_before(ci, bi, si, pi + 1) && #[trigger] causes_unknown_action(
                    f,
                    ss,
                    sources,
                    ci,
                    bi,
                    nm,
                );
            if !(ci == si && bi == pi) {
                assert(pos2_before(ci, bi, si, pi));
                assert(cause_ua_upto(f, ss, sources, nm, si, pi));
            }
        }
        if cause_ua_upto(f, ss, sources, nm, si, pi) {
            let (ci, bi): (int, int) = choose|ci: int, bi: int|
                pos2_before(ci, bi, si, pi) && #[trigger] causes_unknown_action(
                    f,
                    ss,
                    sources,
                    ci,
                    bi,
                    nm,
                );
            assert(pos2_before(ci, bi, si, pi + 1));
            assert(cause_ua_upto(f, ss, sources, nm, si, pi + 1));
        }
        if causes_unknown_action(f, ss, sources, si, pi, nm) {
            assert(pos2_before(si, pi, si, pi + 1));
            assert(cause_ua_upto(f, ss, sources, nm, si, pi + 1));
        }
    }
}

/// Finishing the pairs of entry `si` moves the unknown-action causes to
/// the start of the next entry; an entry with an unregistered source
/// contributes none, so for it the move starts at pair 0.
proof fn lemma_ua_entry(f: BindingsFactory, ss: Session, sources: Seq<SourceConfig>, si: int, pi: int)
    requires
        0 <= si < sources.len(),
        pi == sources[si].bindings@.len() || (pi == 0 && !has_src(f.sources@, sources[si].ty@)),
    ensures
        forall|nm: Seq<char>|
            #[trigger] cause_ua_upto(f, ss, sources, nm, si + 1, 0) <==> cause_ua_upto(
                f,
                ss,
                sources,
                nm,
                si,
                pi,
            ),
{
    assert forall|nm: Seq<char>|
        #[trigger] cause_ua_upto(f, ss, sources, nm, si + 1, 0) <==> cause_ua_upto(
            f,
            ss,
            sources,
            nm,
            si,
            pi,
        ) by {
        if cause_ua_upto(f, ss, sources, nm, si + 1, 0) {
            let (ci, bi): (int, int) = choose|ci: int, bi: int|
                pos2_before(ci, bi, si + 1, 0) && #[trigger] causes_unknown_action(
                    f,
                    ss,
                    sources,
                    ci,
                    bi,
                    nm,
                );
            if ci == si {
                assert(bi < sources[si].bindings@.len());
                assert(has_src(f.sources@, sources[si].ty@));
            }
            assert(pos2_before(ci, bi, si, pi));
            assert(cause_ua_upto(f, ss, sources, nm, si, pi));
        }
        if cause_ua_upto(f, ss, sources, nm, si, pi) {
            let (ci, bi): (int, int) = choose|ci: int, bi: int|
                pos2_before(ci, bi, si, pi) && #[trigger] causes_unknown_action(
                    f,
                    ss,
                    sources,
                    ci,
                    bi,
                    nm,
                );
            assert(pos2_before(ci, bi, si + 1, 0));
            assert(cause_ua_upto(f, ss, sources, nm, si + 1, 0));
        }
    }
}

/// Past the last entry the partial unknown-action causes are the whole
/// relation.
proof fn lemma_ua_all(f: BindingsFactory, ss: Session, sources: Seq<SourceConfig>)
    ensures
        forall|nm: Seq<char>|
            #[trigger] cause_ua_upto(f, ss, sources, nm, sources.len() as int, 0) <==> (exists|
                ci: int,
                bi: int,
            | causes_unknown_action(f, ss, sources, ci, bi, nm)),
{
    assert forall|nm: Seq<char>|
        #[trigger] cause_ua_upto(f, ss, sources, nm, sources.len() as int, 0) <==> (exists|
            ci: int,
            bi: int,
        | causes_unknown_action(f, ss, sources, ci, bi, nm)) by {
        if cause_ua_upto(f, ss, sources, nm, sources.len() as int, 0) {
            let (ci, bi): (int, int) = choose|ci: int, bi: int|
                pos2_before(ci, bi, sources.len() as int, 0) && #[trigger] causes_unknown_action(
                    f,
                    ss,
                    sources,
                    ci,
                    bi,
                    nm,
                );
            assert(causes_unknown_action(f, ss, sources, ci, bi, nm));
        }
        if exists|ci: int, bi: int| causes_unknown_action(f, ss, sources, ci, bi, nm) {
            let (ci, bi): (int, int) = choose|ci: int, bi: int|
                #[trigger] causes_unknown_action(f, ss, sources, ci, bi, nm);
            assert(pos2_before(ci, bi, sources.len() as int, 0));
            assert(cause_ua_upto(f, ss, sources, nm, sources.len() as int, 0));
        }
    }
}

/// Advancing past position `(si, pi, ti)` extends the unrecognized-input
/// causes by exactly that position's.
proof fn lemma_ui_step(
    f: BindingsFactory,
    ss: Session,
    sources: Seq<SourceConfig>,
    si: int,
    pi: int,
    ti: int,
)
    ensures
        forall|text: Seq<char>|
            #[trigger] cause_ui_upto(f, ss, sources, text, si, pi, ti + 1) <==> (cause_ui_upto(
                f,
                ss,
                sources,
                text,
                si,
                pi,
                ti,
            ) || causes_unknown_input(f, ss, sources, si, pi, ti, text)),
{
    assert forall|text: Seq<char>|
        #[trigger] cause_ui_upto(f, ss, sources, text, si, pi, ti + 1) <==> (cause_ui_upto(
            f,
            ss,
            sources,
            text,
            si,
            pi,
            ti,
        ) || causes_unknown_input(f, ss, sources, si, pi, ti, text)) by {
        if cause_ui_upto(f, ss, sources, text, si, pi, ti + 1) {
            let (ci, bi, xi): (int, int, int) = choose|ci: int, bi: int, xi: int|
                pos_before(ci, bi, xi, si, pi, ti + 1) && #[trigger] causes_unknown_input(
                    f,
                    ss,
                    sources,
                    ci,
                    bi,
                    xi,
                    text,
                );
            if !(ci == si && bi == pi && xi == ti) {
                assert(pos_before(ci, bi, xi, si, pi, ti));
                assert(cause_ui_upto(f, ss, sources, text, si, pi, ti));
            }
        }
        if cause_ui_upto(f, ss, sources, text, si, pi, ti) {
            let (ci, bi, xi): (int, int, int) = choose|ci: int, bi: int, xi: int|
                pos_before(ci, bi, xi, si, pi, ti) && #[trigger] causes_unknown_input(
                    f,
                    ss,
                    sources,
                    ci,
                    bi,
                    xi,
                    text,
                );
            assert(pos_before(ci, bi, xi, si, pi, ti + 1));
            assert(cause_ui_upto(f, ss, sources, text, si, pi, ti + 1));
        }
        if causes_unknown_input(f, ss, sources, si, pi, ti, text) {
            assert(pos_before(si, pi, ti, si, pi, ti + 1));
            assert(cause_ui_upto(f, ss, sources, text, si, pi, ti + 1));
        }
    }
}

/// Boundary moves for the unrecognized-input causes: finishing a pair,
/// finishing or skipping an entry, or skipping an unresolved pair.
proof fn lemma_ui_pair(
    f: BindingsFactory,
    ss: Session,
    sources: Seq<SourceConfig>,
    si: int,
    pi: int,
    ti: int,
)
    requires
        0 <= si < sources.len(),
        0 <= pi < sources[si].bindings@.len(),
        ti == sources[si].bindings@[pi].1@.len() || (ti == 0 && !ss.has_name(
            sources[si].bindings@[pi].0@,
        )),
    ensures
        forall|text: Seq<char>|
            #[trigger] cause_ui_upto(f, ss, sources, text, si, pi + 1, 0) <==> cause_ui_upto(
                f,
                ss,
                sources,
                text,
                si,
                pi,
                ti,
            ),
{
    assert forall|text: Seq<char>|
        #[trigger] cause_ui_upto(f, ss, sources, text, si, pi + 1, 0) <==> cause_ui_upto(
            f,
            ss,
            sources,
            text,
            si,
            pi,
            ti,
        ) by {
        if cause_ui_upto(f, ss, sources, text, si, pi + 1, 0) {
            let (ci, bi, xi): (int, int, int) = choose|ci: int, bi: int, xi: int|
                pos_before(ci, bi, xi, si, pi + 1, 0) && #[trigger] causes_unknown_input(
                    f,
                    ss,
                    sources,
                    ci,
                    bi,
                    xi,
                    text,
                );
            if ci == si && bi == pi {
                assert(xi < sources[si].bindings@[pi].1@.len());
                assert(ss.has_name(sources[si].bindings@[pi].0@));
            }
            assert(pos_before(ci, bi, xi, si, pi, ti));
            assert(cause_ui_upto(f, ss, sources, text, si, pi, ti));
        }
        if cause_ui_upto(f, ss, sources, text, si, pi, ti) {
            let (ci, bi, xi): (int, int, int) = choose|ci: int, bi: int, xi: int|
                pos_before(ci, bi, xi, si, pi, ti) && #[trigger] causes_unknown_input(
                    f,
                    ss,
                    sources,
                    ci,
                    bi,
                    xi,
                    text,
                );
            assert(pos_before(ci, bi, xi, si, pi + 1, 0));
            assert(cause_ui_upto(f, ss, sources, text, si, pi + 1, 0));
        }
    }
}

/// Finishing or skipping entry `si` moves the unrecognized-input causes
/// to the start of the next entry.
proof fn lemma_ui_entry(
    f: BindingsFactory,
    ss: Session,
    sources: Seq<SourceConfig>,
    si: int,
    pi: int,
)
    requires
        0 <= si < sources.len(),
        pi == sources[si].bindings@.len() || (pi == 0 && !has_src(f.sources@, sources[si].ty@)),
    ensures
        forall|text: Seq<char>|
            #[trigger] cause_ui_upto(f, ss, sources, text, si + 1, 0, 0) <==> cause_ui_upto(
                f,
                ss,
                sources,
                text,
                si,
                pi,
                0,
            ),
{
    assert forall|text: Seq<char>|
        #[trigger] cause_ui_upto(f, ss, sources, text, si + 1, 0, 0) <==> cause_ui_upto(
            f,
            ss,
            sources,
            text,
            si,
            pi,
            0,
        ) by {
        if cause_ui_upto(f, ss, sources, text, si + 1, 0, 0) {
            let (ci, bi, xi): (int, int, int) = choose|ci: int, bi: int, xi: int|
                pos_before(ci, bi, xi, si + 1, 0, 0) && #[trigger] causes_unknown_input(
                    f,
                    ss,
                    sources,
                    ci,
                    bi,
                    xi,
                    text,
                );
            if ci == si {
                assert(bi < sources[si].bindings@.len());
                assert(has_src(f.sources@, sources[si].ty@));
            }
            assert(pos_before(ci, bi, xi, si, pi, 0));
            assert(cause_ui_upto(f, ss, sources, text, si, pi, 0));
        }
        if cause_ui_upto(f, ss, sources, text, si, pi, 0) {
            let (ci, bi, xi): (int, int, int) = choose|ci: int, bi: int, xi: int|
                pos_before(ci, bi, xi, si, pi, 0) && #[trigger] causes_unknown_input(
                    f,
                    ss,
                    sources,
                    ci,
                    bi,
                    xi,
                    text,
                );
            assert(pos_before(ci, bi, xi, si + 1, 0, 0));
            assert(cause_ui_upto(f, ss, sources, text, si + 1, 0, 0));
        }
    }
}

/// Past the last entry the partial unrecognized-input causes are the
/// whole relation.
proof fn lemma_ui_all(f: BindingsFactory, ss: Session, sources: Seq<SourceConfig>)
    ensures
        forall|text: Seq<char>|
            #[trigger] cause_ui_upto(f, ss, sources, text, sources.len() as int, 0, 0) <==> (exists|
                ci: int,
                bi: int,
                xi: int,
            | causes_unknown_input(f, ss, sources, ci, bi, xi, text)),
{
    assert forall|text: Seq<char>|
        #[trigger] cause_ui_upto(f, ss, sources, text, sources.len() as int, 0, 0) <==> (exists|
            ci: int,
            bi: int,
            xi: int,
        | causes_unknown_input(f, ss, sources, ci, bi, xi, text)) by {
        if cause_ui_upto(f, ss, sources, text, sources.len() as int, 0, 0) {
            let (ci, bi, xi): (int, int, int) = choose|ci: int, bi: int, xi: int|
                pos_before(ci, bi, xi, sources.len() as int, 0, 0)
                    && #[trigger] causes_unknown_input(f, ss, sources, ci, bi, xi, text);
            assert(causes_unknown_input(f, ss, sources, ci, bi, xi, text));
        }
        if exists|ci: int, bi: int, xi: int| causes_unknown_input(f, ss, sources, ci, bi, xi, text) {
            let (ci, bi, xi): (int, int, int) = choose|ci: int, bi: int, xi: int|
                #[trigger] causes_unknown_input(f, ss, sources, ci, bi, xi, text);
            assert(pos_before(ci, bi, xi, sources.len() as int, 0, 0));
            assert(cause_ui_upto(f, ss, sources, text, sources.len() as int, 0, 0));
        }
    }
}

/// Advancing past position `(si, pi, ti)` extends the input-type-error
/// causes by exactly that position's.
proof fn lemma_ite_step(
    f: BindingsFactory,
    ss: Session,
    sources: Seq<SourceConfig>,
    si: int,
    pi: int,
    ti: int,
)
    ensures
        forall|nm: Seq<char>, text: Seq<char>, actual: TypeTag, expected: Seq<TypeTag>|
            #[trigger] cause_ite_upto(f, ss, sources, nm, text, actual, expected, si, pi, ti + 1)
                <==> (cause_ite_upto(f, ss, sources, nm, text, actual, expected, si, pi, ti)
                || causes_input_type_error(f, ss, sources, si, pi, ti, nm, text, actual, expected)),
{
    assert forall|nm: Seq<char>, text: Seq<char>, actual: TypeTag, expected: Seq<TypeTag>|
        #[trigger] cause_ite_upto(f, ss, sources, nm, text, actual, expected, si, pi, ti + 1) <==> (
        cause_ite_upto(f, ss, sources, nm, text, actual, expected, si, pi, ti)
            || causes_input_type_error(f, ss, sources, si, pi, ti, nm, text, actual, expected)) by {
        if cause_ite_upto(f, ss, sources, nm, text, actual, expected, si, pi, ti + 1) {
            let (ci, bi, xi): (int, int, int) = choose|ci: int, bi: int, xi: int|
                pos_before(ci, bi, xi, si, pi, ti + 1) && #[trigger] causes_input_type_error(
                    f,
                    ss,
                    sources,
                    ci,
                    bi,
                    xi,
                    nm,
                    text,
                    actual,
                    expected,
                );
            if !(ci == si && bi == pi && xi == ti) {
                assert(pos_before(ci, bi, xi, si, pi, ti));
                assert(cause_ite_upto(f, ss, sources, nm, text, actual, expected, si, pi, ti));
            }
        }
        if cause_ite_upto(f, ss, sources, nm, text, actual, expected, si, pi, ti) {
            let (ci, bi, xi): (int, int, int) = choose|ci: int, bi: int, xi: int|
                pos_before(ci, bi, xi, si, pi, ti) && #[trigger] causes_input_type_error(
                    f,
                    ss,
                    sources,
                    ci,
                    bi,
                    xi,
                    nm,
                    text,
                    actual,
                    expected,
                );
            assert(pos_before(ci, bi, xi, si, pi, ti + 1));
            assert(cause_ite_upto(f, ss, sources, nm, text, actual, expected, si, pi, ti + 1));
        }
        if causes_input_type_error(f, ss, sources, si, pi, ti, nm, text, actual, expected) {
            assert(pos_before(si, pi, ti, si, pi, ti + 1));
            assert(cause_ite_upto(f, ss, sources, nm, text, actual, expected, si, pi, ti + 1));
        }
    }
}

/// Boundary moves for the input-type-error causes: finishing a pair or
/// skipping an unresolved pair.
proof fn lemma_ite_pair(
    f: BindingsFactory,
    ss: Session,
    sources: Seq<SourceConfig>,
    si: int,
    pi: int,
    ti: int,
)
    requires
        0 <= si < sources.len(),
        0 <= pi < sources[si].bindings@.len(),
        ti == sources[si].bindings@[pi].1@.len() || (ti == 0 && !ss.has_name(
            sources[si].bindings@[pi].0@,
        )),
    ensures
        forall|nm: Seq<char>, text: Seq<char>, actual: TypeTag, expected: Seq<TypeTag>|
            #[trigger] cause_ite_upto(f, ss, sources, nm, text, actual, expected, si, pi + 1, 0)
                <==> cause_ite_upto(f, ss, sources, nm, text, actual, expected, si, pi, ti),
{
    assert forall|nm: Seq<char>, text: Seq<char>, actual: TypeTag, expected: Seq<TypeTag>|
        #[trigger] cause_ite_upto(f, ss, sources, nm, text, actual, expected, si, pi + 1, 0)
            <==> cause_ite_upto(f, ss, sources, nm, text, actual, expected, si, pi, ti) by {
        if cause_ite_upto(f, ss, sources, nm, text, actual, expected, si, pi + 1, 0) {
            let (ci, bi, xi): (int, int, int) = choose|ci: int, bi: int, xi: int|
                pos_before(ci, bi, xi, si, pi + 1, 0) && #[trigger] causes_input_type_error(
                    f,
                    ss,
                    sources,
                    ci,
                    bi,
                    xi,
                    nm,
                    text,
                    actual,
                    expected,
                );
            if ci == si && bi == pi {
                assert(xi < sources[si].bindings@[pi].1@.len());
                assert(ss.has_name(sources[si].bindings@[pi].0@));
            }
            assert(pos_before(ci, bi, xi, si, pi, ti));
            assert(cause_ite_upto(f, ss, sources, nm, text, actual, expected, si, pi, ti));
        }
        if cause_ite_upto(f, ss, sources, nm, text, actual, expected, si, pi, ti) {
            let (ci, bi, xi): (int, int, int) = choose|ci: int, bi: int, xi: int|
                pos_before(ci, bi, xi, si, pi, ti) && #[trigger] causes_input_type_error(
                    f,
                    ss,
                    sources,
                    ci,
                    bi,
                    xi,
                    nm,
                    text,
                    actual,
                    expected,
                );
            assert(pos_before(ci, bi, xi, si, pi + 1, 0));
            assert(cause_ite_upto(f, ss, sources, nm, text, actual, expected, si, pi + 1, 0));
        }
    }
}

/// Finishing or skipping entry `si` moves the input-type-error causes to
/// the start of the next entry.
proof fn lemma_ite_entry(
    f: BindingsFactory,
    ss: Session,
    sources: Seq<SourceConfig>,
    si: int,
    pi: int,
)
    requires
        0 <= si < sources.len(),
        pi == sources[si].bindings@.len() || (pi == 0 && !has_src(f.sources@, sources[si].ty@)),
    ensures
        forall|nm: Seq<char>, text: Seq<char>, actual: TypeTag, expected: Seq<TypeTag>|
            #[trigger] cause_ite_upto(f, ss, sources, nm, text, actual, expected, si + 1, 0, 0)
                <==> cause_ite_upto(f, ss, sources, nm, text, actual, expected, si, pi, 0),
{
    assert forall|nm: Seq<char>, text: Seq<char>, actual: TypeTag, expected: Seq<TypeTag>|
        #[trigger] cause_ite_upto(f, ss, sources, nm, text, actual, expected, si + 1, 0, 0)
            <==> cause_ite_upto(f, ss, sources, nm, text, actual, expected, si, pi, 0) by {
        if cause_ite_upto(f, ss, sources, nm, text, actual, expected, si + 1, 0, 0) {
            let (ci, bi, xi): (int, int, int) = choose|ci: int, bi: int, xi: int|
                pos_before(ci, bi, xi, si + 1, 0, 0) && #[trigger] causes_input_type_error(
                    f,
                    ss,
                    sources,
                    ci,
                    bi,
                    xi,
                    nm,
                    text,
                    actual,
                    expected,
                );
            if ci == si {
                assert(bi < sources[si].bindings@.len());
                assert(has_src(f.sources@, sources[si].ty@));
            }
            assert(pos_before(ci, bi, xi, si, pi, 0));
            assert(cause_ite_upto(f, ss, sources, nm, text, actual, expected, si, pi, 0));
        }
        if cause_ite_upto(f, ss, sources, nm, text, actual, expected, si, pi, 0) {
            let (ci, bi, xi): (int, int, int) = choose|ci: int, bi: int, xi: int|
                pos_before(ci, bi, xi, si, pi, 0) && #[trigger] causes_input_type_error(
                    f,
                    ss,
                    sources,
                    ci,
                    bi,
                    xi,
                    nm,
                    text,
                    actual,
                    expected,
                );
            assert(pos_before(ci, bi, xi, si + 1, 0, 0));
            assert(cause_ite_upto(f, ss, sources, nm, text, actual, expected, si + 1, 0, 0));
        }
    }
}

/// Past the last entry the partial input-type-error causes are the whole
/// relation.
proof fn lemma_ite_all(f: BindingsFactory, ss: Session, sources: Seq<SourceConfig>)
    ensures
        forall|nm: Seq<char>, text: Seq<char>, actual: TypeTag, expected: Seq<TypeTag>|
            #[trigger] cause_ite_upto(
                f,
                ss,
                sources,
                nm,
                text,
                actual,
                expected,
                sources.len() as int,
                0,
                0,
            ) <==> (exists|ci: int, bi: int, xi: int|
                causes_input_type_error(f, ss, sources, ci, bi, xi, nm, text, actual, expected)),
{
    assert forall|nm: Seq<char>, text: Seq<char>, actual: TypeTag, expected: Seq<TypeTag>|
        #[trigger] cause_ite_upto(
            f,
            ss,
            sources,
            nm,
            text,
            actual,
            expected,
            sources.len() as int,
            0,
            0,
        ) <==> (exists|ci: int, bi: int, xi: int|
            causes_input_type_error(f, ss, sources, ci, bi, xi, nm, text, actual, expected)) by {
        if cause_ite_upto(f, ss, sources, nm, text, actual, expected, sources.len() as int, 0, 0) {
            let (ci, bi, xi): (int, int, int) = choose|ci: int, bi: int, xi: int|
                pos_before(ci, bi, xi, sources.len() as int, 0, 0)
                    && #[trigger] causes_input_type_error(
                    f,
                    ss,
                    sources,
                    ci,
                    bi,
                    xi,
                    nm,
                    text,
                    actual,
                    expected,
                );
            assert(causes_input_type_error(f, ss, sources, ci, bi, xi, nm, text, actual, expected));
        }
        if exists|ci: int, bi: int, xi: int|
            causes_input_type_error(f, ss, sources, ci, bi, xi, nm, text, actual, expected) {
            let (ci, bi, xi): (int, int, int) = choose|ci: int, bi: int, xi: int|
                #[trigger] causes_input_type_error(
                    f,
                    ss,
                    sources,
                    ci,
                    bi,
                    xi,
                    nm,
                    text,
                    actual,
                    expected,
                );
            assert(pos_before(ci, bi, xi, sources.len() as int, 0, 0));
            assert(cause_ite_upto(f, ss, sources, nm, text, actual, expected, sources.len() as int, 0, 0));
        }
    }
}

/// Appending one error extends each error record by exactly what the
/// appended error says.
proof fn lemma_errs_unknown_push(pre: Seq<LoadError>, e: LoadError)
    ensures
        forall|nm: Seq<char>|
            #[trigger] errs_unknown_source(pre.push(e), nm) <==> (errs_unknown_source(pre, nm) || (
            e matches LoadError::UnknownSource { name } && name@ == nm)),
        forall|nm: Seq<char>|
            #[trigger] errs_unknown_action(pre.push(e), nm) <==> (errs_unknown_action(pre, nm) || (
            e matches LoadError::UnknownAction { name } && name@ == nm)),
        forall|text: Seq<char>|
            #[trigger] errs_unknown_input(pre.push(e), text) <==> (errs_unknown_input(pre, text)
                || (e matches LoadError::UnknownInput { input } && input@ == text)),
        forall|nm: Seq<char>, text: Seq<char>, actual: TypeTag, expected: Seq<TypeTag>|
            #[trigger] errs_input_type_error(pre.push(e), nm, text, actual, expected) <==> (
            errs_input_type_error(pre, nm, text, actual, expected) || (
            e matches LoadError::InputTypeError { action_name, input, actual: act, expected: exp }
                && action_name@ == nm && input@ == text && act == actual && exp@ == expected)),
        forall|ty: Seq<char>|
            #[trigger] errs_unknown_filter(pre.push(e), ty) <==> (errs_unknown_filter(pre, ty) || (
            e matches LoadError::Filter(FilterLoadError::UnknownFilter { ty: t }) && t@ == ty)),
        forall|n: usize|
            #[trigger] errs_wrong_output_count(pre.push(e), n) <==> (errs_wrong_output_count(
                pre,
                n,
            ) || (e matches LoadError::Filter(FilterLoadError::WrongOutputCount { expected })
                && expected == n)),
        forall|nm: Seq<char>|
            #[trigger] errs_duplicate_source(pre.push(e), nm) <==> (errs_duplicate_source(pre, nm)
                || (e matches LoadError::Filter(FilterLoadError::DuplicateSource { name }) && name@
                == nm)),
        forall|nm: Seq<char>|
            #[trigger] errs_unknown_target(pre.push(e), nm) <==> (errs_unknown_target(pre, nm) || (
            e matches LoadError::Filter(FilterLoadError::UnknownTarget { output }) && output@
                == nm)),
        forall|fty: Seq<char>, act: Seq<char>, err: TypeError|
            #[trigger] errs_filter_type_error(pre.push(e), fty, act, err) <==> (
            errs_filter_type_error(pre, fty, act, err) || (
            e matches LoadError::Filter(FilterLoadError::TypeError { filter_ty, action, error })
                && filter_ty@ == fty && action@ == act && error == err)),
{
    assert forall|n: usize|
        #[trigger] errs_wrong_output_count(pre.push(e), n) <==> (errs_wrong_output_count(pre, n)
            || (e matches LoadError::Filter(FilterLoadError::WrongOutputCount { expected })
            && expected == n)) by {
        if errs_wrong_output_count(pre.push(e), n) {
            let i = choose|i: int|
                0 <= i < pre.push(e).len() && ((#[trigger] pre.push(e)[i]) matches LoadError::Filter(
                    FilterLoadError::WrongOutputCount { expected },
                ) && expected == n);
            if i < pre.len() {
                assert(pre[i] == pre.push(e)[i]);
                assert(errs_wrong_output_count(pre, n));
            } else {
                assert(pre.push(e)[i] == e);
            }
        }
        if errs_wrong_output_count(pre, n) {
            let i = choose|i: int|
                0 <= i < pre.len() && ((#[trigger] pre[i]) matches LoadError::Filter(
                    FilterLoadError::WrongOutputCount { expected },
                ) && expected == n);
            assert(pre.push(e)[i] == pre[i]);
            assert(errs_wrong_output_count(pre.push(e), n));
        }
        if e matches LoadError::Filter(FilterLoadError::WrongOutputCount { expected }) && expected
            == n {
            assert(pre.push(e)[pre.len() as int] == e);
            assert(errs_wrong_output_count(pre.push(e), n));
        }
    }
    assert forall|nm: Seq<char>|
        #[trigger] errs_duplicate_source(pre.push(e), nm) <==> (errs_duplicate_source(pre, nm) || (
        e matches LoadError::Filter(FilterLoadError::DuplicateSource { name }) && name@ == nm)) by {
        if errs_duplicate_source(pre.push(e), nm) {
            let i = choose|i: int|
                0 <= i < pre.push(e).len() && ((#[trigger] pre.push(e)[i]) matches LoadError::Filter(
                    FilterLoadError::DuplicateSource { name },
                ) && name@ == nm);
            if i < pre.len() {
                assert(pre[i] == pre.push(e)[i]);
                assert(errs_duplicate_source(pre, nm));
            } else {
                assert(pre.push(e)[i] == e);
            }
        }
        if errs_duplicate_source(pre, nm) {
            let i = choose|i: int|
                0 <= i < pre.len() && ((#[trigger] pre[i]) matches LoadError::Filter(
                    FilterLoadError::DuplicateSource { name },
                ) && name@ == nm);
            assert(pre.push(e)[i] == pre[i]);
            assert(errs_duplicate_source(pre.push(e), nm));
        }
        if e matches LoadError::Filter(FilterLoadError::DuplicateSource { name }) && name@ == nm {
            assert(pre.push(e)[pre.len() as int] == e);
            assert(errs_duplicate_source(pre.push(e), nm));
        }
    }
    assert forall|nm: Seq<char>|
        #[trigger] errs_unknown_target(pre.push(e), nm) <==> (errs_unknown_target(pre, nm) || (
        e matches LoadError::Filter(FilterLoadError::UnknownTarget { output }) && output@
            == nm)) by {
        if errs_unknown_target(pre.push(e), nm) {
            let i = choose|i: int|
                0 <= i < pre.push(e).len() && ((#[trigger] pre.push(e)[i]) matches LoadError::Filter(
                    FilterLoadError::UnknownTarget { output },
                ) && output@ == nm);
            if i < pre.len() {
                assert(pre[i] == pre.push(e)[i]);
                assert(errs_unknown_target(pre, nm));
            } else {
                assert(pre.push(e)[i] == e);
            }
        }
        if errs_unknown_target(pre, nm) {
            let i = choose|i: int|
                0 <= i < pre.len() && ((#[trigger] pre[i]) matches LoadError::Filter(
                    FilterLoadError::UnknownTarget { output },
                ) && output@ == nm);
            assert(pre.push(e)[i] == pre[i]);
            assert(errs_unknown_target(pre.push(e), nm));
        }
        if e matches LoadError::Filter(FilterLoadError::UnknownTarget { output }) && output@ == nm {
            assert(pre.push(e)[pre.len() as int] == e);
            assert(errs_unknown_target(pre.push(e), nm));
        }
    }
    assert forall|fty: Seq<char>, act: Seq<char>, err: TypeError|
        #[trigger] errs_filter_type_error(pre.push(e), fty, act, err) <==> (errs_filter_type_error(
            pre,
            fty,
            act,
            err,
        ) || (e matches LoadError::Filter(FilterLoadError::TypeError { filter_ty, action, error })
            && filter_ty@ == fty && action@ == act && error == err)) by {
        if errs_filter_type_error(pre.push(e), fty, act, err) {
            let i = choose|i: int|
                0 <= i < pre.push(e).len() && ((#[trigger] pre.push(e)[i]) matches LoadError::Filter(
                    FilterLoadError::TypeError { filter_ty, action, error },
                ) && filter_ty@ == fty && action@ == act && error == err);
            if i < pre.len() {
                assert(pre[i] == pre.push(e)[i]);
                assert(errs_filter_type_error(pre, fty, act, err));
            } else {
                assert(pre.push(e)[i] == e);
            }
        }
        if errs_filter_type_error(pre, fty, act, err) {
            let i = choose|i: int|
                0 <= i < pre.len() && ((#[trigger] pre[i]) matches LoadError::Filter(
                    FilterLoadError::TypeError { filter_ty, action, error },
                ) && filter_ty@ == fty && action@ == act && error == err);
            assert(pre.push(e)[i] == pre[i]);
            assert(errs_filter_type_error(pre.push(e), fty, act, err));
        }
        if e matches LoadError::Filter(FilterLoadError::TypeError { filter_ty, action, error })
            && filter_ty@ == fty && action@ == act && error == err {
            assert(pre.push(e)[pre.len() as int] == e);
            assert(errs_filter_type_error(pre.push(e), fty, act, err));
        }
    }
    assert forall|ty: Seq<char>|
        #[trigger] errs_unknown_filter(pre.push(e), ty) <==> (errs_unknown_filter(pre, ty) || (
        e matches LoadError::Filter(FilterLoadError::UnknownFilter { ty: t }) && t@ == ty)) by {
        if errs_unknown_filter(pre.push(e), ty) {
            let i = choose|i: int|
                0 <= i < pre.push(e).len() && ((#[trigger] pre.push(e)[i]) matches LoadError::Filter(
                    FilterLoadError::UnknownFilter { ty: t },
                ) && t@ == ty);
            if i < pre.len() {
                assert(pre[i] == pre.push(e)[i]);
                assert(errs_unknown_filter(pre, ty));
            } else {
                assert(pre.push(e)[i] == e);
            }
        }
        if errs_unknown_filter(pre, ty) {
            let i = choose|i: int|
                0 <= i < pre.len() && ((#[trigger] pre[i]) matches LoadError::Filter(
                    FilterLoadError::UnknownFilter { ty: t },
                ) && t@ == ty);
            assert(pre.push(e)[i] == pre[i]);
            assert(errs_unknown_filter(pre.push(e), ty));
        }
        if e matches LoadError::Filter(FilterLoadError::UnknownFilter { ty: t }) && t@ == ty {
            assert(pre.push(e)[pre.len() as int] == e);
            assert(errs_unknown_filter(pre.push(e), ty));
        }
    }
    assert forall|nm: Seq<char>|
        #[trigger] errs_unknown_source(pre.push(e), nm) <==> (errs_unknown_source(pre, nm) || (
        e matches LoadError::UnknownSource { name } && name@ == nm)) by {
        if errs_unknown_source(pre.push(e), nm) {
            let i = choose|i: int|
                0 <= i < pre.push(e).len() && ((#[trigger] pre.push(e)[i]) matches LoadError::UnknownSource { name }
                    && name@ == nm);
            if i < pre.len() {
                assert(pre[i] == pre.push(e)[i]);
                assert(errs_unknown_source(pre, nm));
            } else {
                assert(pre.push(e)[i] == e);
            }
        }
        if errs_unknown_source(pre, nm) {
            let i = choose|i: int|
                0 <= i < pre.len() && ((#[trigger] pre[i]) matches LoadError::UnknownSource { name }
                    && name@ == nm);
            assert(pre.push(e)[i] == pre[i]);
            assert(errs_unknown_source(pre.push(e), nm));
        }
        if e matches LoadError::UnknownSource { name } && name@ == nm {
            assert(pre.push(e)[pre.len() as int] == e);
            assert(errs_unknown_source(pre.push(e), nm));
        }
    }
    assert forall|nm: Seq<char>|
        #[trigger] errs_unknown_action(pre.push(e), nm) <==> (errs_unknown_action(pre, nm) || (
        e matches LoadError::UnknownAction { name } && name@ == nm)) by {
        if errs_unknown_action(pre.push(e), nm) {
            let i = choose|i: int|
                0 <= i < pre.push(e).len() && ((#[trigger] pre.push(e)[i]) matches LoadError::UnknownAction { name }
                    && name@ == nm);
            if i < pre.len() {
                assert(pre[i] == pre.push(e)[i]);
                assert(errs_unknown_action(pre, nm));
            } else {
                assert(pre.push(e)[i] == e);
            }
        }
        if errs_unknown_action(pre, nm) {
            let i = choose|i: int|
                0 <= i < pre.len() && ((#[trigger] pre[i]) matches LoadError::UnknownAction { name }
                    && name@ == nm);
            assert(pre.push(e)[i] == pre[i]);
            assert(errs_unknown_action(pre.push(e), nm));
        }
        if e matches LoadError::UnknownAction { name } && name@ == nm {
            assert(pre.push(e)[pre.len() as int] == e);
            assert(errs_unknown_action(pre.push(e), nm));
        }
    }
    assert forall|text: Seq<char>|
        #[trigger] errs_unknown_input(pre.push(e), text) <==> (errs_unknown_input(pre, text) || (
        e matches LoadError::UnknownInput { input } && input@ == text)) by {
        if errs_unknown_input(pre.push(e), text) {
            let i = choose|i: int|
                0 <= i < pre.push(e).len() && ((#[trigger] pre.push(e)[i]) matches LoadError::UnknownInput { input }
                    && input@ == text);
            if i < pre.len() {
                assert(pre[i] == pre.push(e)[i]);
                assert(errs_unknown_input(pre, text));
            } else {
                assert(pre.push(e)[i] == e);
            }
        }
        if errs_unknown_input(pre, text) {
            let i = choose|i: int|
                0 <= i < pre.len() && ((#[trigger] pre[i]) matches LoadError::UnknownInput { input }
                    && input@ == text);
            assert(pre.push(e)[i] == pre[i]);
            assert(errs_unknown_input(pre.push(e), text));
        }
        if e matches LoadError::UnknownInput { input } && input@ == text {
            assert(pre.push(e)[pre.len() as int] == e);
            assert(errs_unknown_input(pre.push(e), text));
        }
    }
    assert forall|nm: Seq<char>, text: Seq<char>, actual: TypeTag, expected: Seq<TypeTag>|
        #[trigger] errs_input_type_error(pre.push(e), nm, text, actual, expected) <==> (
        errs_input_type_error(pre, nm, text, actual, expected) || (
        e matches LoadError::InputTypeError { action_name, input, actual: act, expected: exp }
            && action_name@ == nm && input@ == text && act == actual && exp@ == expected)) by {
        if errs_input_type_error(pre.push(e), nm, text, actual, expected) {
            let i = choose|i: int|
                0 <= i < pre.push(e).len() && ((#[trigger] pre.push(e)[i]) matches LoadError::InputTypeError {
                    action_name,
                    input,
                    actual: act,
                    expected: exp,
                } && action_name@ == nm && input@ == text && act == actual && exp@ == expected);
            if i < pre.len() {
                assert(pre[i] == pre.push(e)[i]);
                assert(errs_input_type_error(pre, nm, text, actual, expected));
            } else {
                assert(pre.push(e)[i] == e);
            }
        }
        if errs_input_type_error(pre, nm, text, actual, expected) {
            let i = choose|i: int|
                0 <= i < pre.len() && ((#[trigger] pre[i]) matches LoadError::InputTypeError {
                    action_name,
                    input,
                    actual: act,
                    expected: exp,
                } && action_name@ == nm && input@ == text && act == actual && exp@ == expected);
            assert(pre.push(e)[i] == pre[i]);
            assert(errs_input_type_error(pre.push(e), nm, text, actual, expected));
        }
        if e matches LoadError::InputTypeError { action_name, input, actual: act, expected: exp }
            && action_name@ == nm && input@ == text && act == actual && exp@ == expected {
            assert(pre.push(e)[pre.len() as int] == e);
            assert(errs_input_type_error(pre.push(e), nm, text, actual, expected));
        }
    }
}

/// A pushed action is in the bound list iff it was there or is the new
/// one.
proof fn lemma_contains_push(s: Seq<ActionId>, x: ActionId, y: ActionId)
    ensures
        s.push(x).contains(y) <==> (s.contains(y) || x == y),
{
    if s.push(x).contains(y) {
        let i = choose|i: int| 0 <= i < s.push(x).len() && s.push(x)[i] == y;
        if i < s.len() {
            assert(s[i] == y);
        }
    }
    if s.contains(y) {
        let i = choose|i: int| 0 <= i < s.len() && s[i] == y;
        assert(s.push(x)[i] == y);
    }
    if x == y {
        assert(s.push(x)[s.len() as int] == y);
    }
}


impl Default for BindingsFactory {
    /// See [`BindingsFactory::new`].
    fn default() -> (r: BindingsFactory)
        ensures
            r.wf(),
            r.sources@ == Seq::<SourceSpec>::empty(),
            r.dpad_filter,
    {
        BindingsFactory::new()
    }
}

impl BindingsFactory {
    /// Registered source names are distinct and each source is
    /// well-formed.
    pub open spec fn wf(self) -> bool {
        &&& forall|p: int, q: int|
            0 <= p < q < self.sources@.len() ==> (#[trigger] self.sources@[p]).name@ != (
            #[trigger] self.sources@[q]).name@
        &&& forall|i: int| 0 <= i < self.sources@.len() ==> (#[trigger] self.sources@[i]).wf()
    }

    /// Construct a factory with support for the default filters. Register
    /// the desired input sources before loading.
    pub fn new() -> (r: BindingsFactory)
        ensures
            r.wf(),
            r.sources@ == Seq::<SourceSpec>::empty(),
            r.dpad_filter,
    {
        BindingsFactory { sources: Vec::new(), dpad_filter: true }
    }

    /// Construct a factory with no default filters.
    pub fn empty() -> (r: BindingsFactory)
        ensures
            r.wf(),
            r.sources@ == Seq::<SourceSpec>::empty(),
            !r.dpad_filter,
    {
        BindingsFactory { sources: Vec::new(), dpad_filter: false }
    }

    /// Enable loading configurations that include filters of the
    /// directional-pad kind.
    pub fn register_filter(&mut self)
        ensures
            final(self).sources@ == old(self).sources@,
            final(self).dpad_filter,
    {
        self.dpad_filter = true;
    }

    /// Enable loading configurations that include inputs of the source
    /// `spec` describes. Registering a source again replaces its earlier
    /// description.
    pub fn register_source(&mut self, spec: SourceSpec)
        requires
            old(self).wf(),
            spec.wf(),
        ensures
            final(self).wf(),
            final(self).dpad_filter == old(self).dpad_filter,
            has_src(final(self).sources@, spec.name@),
            final(self).sources@[src_idx(final(self).sources@, spec.name@)] == spec,
            forall|nm: Seq<char>|
                nm != spec.name@ ==> ((#[trigger] has_src(final(self).sources@, nm)) <==> has_src(
                    old(self).sources@,
                    nm,
                )),
            forall|nm: Seq<char>|
                nm != spec.name@ && has_src(old(self).sources@, nm)
                    ==> (#[trigger] final(self).sources@[src_idx(final(self).sources@, nm)]) == old(
                    self,
                ).sources@[src_idx(old(self).sources@, nm)],
    {
        let ghost nm0 = spec.name@;
        let n = self.sources.len();
        let mut i: usize = 0;
        while i < n
            invariant
                i <= n,
                n == self.sources@.len(),
                self.wf(),
                self.dpad_filter == old(self).dpad_filter,
                self.sources@ == old(self).sources@,
                forall|j: int| 0 <= j < i ==> (#[trigger] self.sources@[j]).name@ != nm0,
                spec.wf(),
                spec.name@ == nm0,
            decreases n - i,
        {
            if self.sources[i].name == spec.name {
                let ghost pre = self.sources@;
                self.sources.set(i, spec);
                proof {
                    lemma_src_idx_unique(pre, i as int, nm0);
                    assert forall|p: int, q: int|
                        0 <= p < q < self.sources@.len() implies (
                    #[trigger] self.sources@[p]).name@ != (#[trigger] self.sources@[q]).name@ by {
                        assert(pre[p].name@ != pre[q].name@);
                        if p != i {
                            assert(self.sources@[p] == pre[p]);
                        }
                        if q != i {
                            assert(self.sources@[q] == pre[q]);
                        }
                    }
                    lemma_src_idx_unique(self.sources@, i as int, nm0);
                    assert(pre == old(self).sources@);
                    assert forall|nm: Seq<char>| nm != nm0 implies ((#[trigger] has_src(
                        self.sources@,
                        nm,
                    )) <==> has_src(pre, nm)) by {
                        if has_src(pre, nm) {
                            let p = src_idx(pre, nm);
                            assert(pre[p].name@ == nm);
                            assert(p != i);
                            assert(self.sources@[p].name@ == nm);
                            assert(has_src(self.sources@, nm));
                        } else {
                            if has_src(self.sources@, nm) {
                                let p = src_idx(self.sources@, nm);
                                assert(self.sources@[p].name@ == nm);
                                assert(p != i);
                                assert(pre[p].name@ == nm);
                                assert(has_src(pre, nm));
                            }
                        }
                    }
                    assert forall|nm: Seq<char>|
                        nm != nm0 && has_src(pre, nm) implies (#[trigger] self.sources@[src_idx(
                        self.sources@,
                        nm,
                    )]) == pre[src_idx(pre, nm)] by {
                        let p = src_idx(pre, nm);
                        assert(pre[p].name@ == nm);
                        lemma_src_idx_unique(pre, p, nm);
                        assert(p != i);
                        assert(self.sources@[p].name@ == nm);
                        lemma_src_idx_unique(self.sources@, p, nm);
                    }
                }
                return ;
            }
            i = i + 1;
        }
        let ghost pre = self.sources@;
        self.sources.push(spec);
        proof {
            assert(!has_src(pre, nm0)) by {
                if has_src(pre, nm0) {
                    let j = src_idx(pre, nm0);
                    assert(pre[j].name@ == nm0);
                }
            }
            let ni = pre.len() as int;
            assert(self.sources@[ni].name@ == nm0);
            assert forall|p: int, q: int|
                0 <= p < q < self.sources@.len() implies (#[trigger] self.sources@[p]).name@ != (
            #[trigger] self.sources@[q]).name@ by {
                if q < ni {
                    assert(pre[p].name@ != pre[q].name@);
                } else {
                    assert(self.sources@[q].name@ == nm0);
                    assert(self.sources@[p] == pre[p]);
                    if pre[p].name@ == nm0 {
                        assert(has_src(pre, nm0));
                    }
                }
            }
            lemma_src_idx_unique(self.sources@, ni, nm0);
            assert(pre == old(self).sources@);
            assert forall|nm: Seq<char>| nm != nm0 implies ((#[trigger] has_src(
                self.sources@,
                nm,
            )) <==> has_src(pre, nm)) by {
                if has_src(pre, nm) {
                    let p = src_idx(pre, nm);
                    assert(pre[p].name@ == nm);
                    assert(self.sources@[p].name@ == nm);
                    assert(has_src(self.sources@, nm));
                } else {
                    if has_src(self.sources@, nm) {
                        let p = src_idx(self.sources@, nm);
                        assert(self.sources@[p].name@ == nm);
                        assert(p != ni);
                        assert(pre[p].name@ == nm);
                        assert(has_src(pre, nm));
                    }
                }
            }
            assert forall|nm: Seq<char>|
                nm != nm0 && has_src(pre, nm) implies (#[trigger] self.sources@[src_idx(
                self.sources@,
                nm,
            )]) == pre[src_idx(pre, nm)] by {
                let p = src_idx(pre, nm);
                assert(pre[p].name@ == nm);
                lemma_src_idx_unique(pre, p, nm);
                assert(self.sources@[p].name@ == nm);
                lemma_src_idx_unique(self.sources@, p, nm);
            }
        }
    }

    /// Find the registered source named `name`, if any.
    fn find_src(&self, name: &String) -> (r: Option<usize>)
        requires
            self.wf(),
        ensures
            r is Some <==> has_src(self.sources@, name@),
            r matches Some(i) ==> i < self.sources@.len() && i as int == src_idx(
                self.sources@,
                name@,
            ) && self.sources@[i as int].name@ == name@,
    {
        let n = self.sources.len();
        let mut i: usize = 0;
        while i < n
            invariant
                i <= n,
                n == self.sources@.len(),
                self.wf(),
                forall|j: int| 0 <= j < i ==> (#[trigger] self.sources@[j]).name@ != name@,
            decreases n - i,
        {
            if self.sources[i].name == *name {
                proof {
                    lemma_src_idx_unique(self.sources@, i as int, name@);
                }
                return Some(i);
            }
            i = i + 1;
        }
        proof {
            if has_src(self.sources@, name@) {
                let j = src_idx(self.sources@, name@);
                assert(self.sources@[j].name@ == name@);
            }
        }
        None
    }

    /// True when a later, registered configuration entry displaces the
    /// entry at `si`.
    fn is_shadowed(&self, sources: &Vec<SourceConfig>, si: usize) -> (r: bool)
        requires
            self.wf(),
            si < sources@.len(),
        ensures
            r == shadowed(*self, sources@, si as int),
    {
        let n = sources.len();
        let mut j: usize = si + 1;
        while j < n
            invariant
                si < j <= n,
                n == sources@.len(),
                self.wf(),
                forall|cj: int|
                    si < cj < j ==> !((#[trigger] sources@[cj]).ty@ == sources@[si as int].ty@
                        && has_src(self.sources@, sources@[cj].ty@)),
            decreases n - j,
        {
            if sources[j].ty == sources[si].ty {
                match self.find_src(&sources[j].ty) {
                    Option::Some(_) => {
                        proof {
                            assert(sources@[j as int].ty@ == sources@[si as int].ty@ && has_src(
                                self.sources@,
                                sources@[j as int].ty@,
                            ));
                            assert(shadowed(*self, sources@, si as int));
                        }
                        return true;
                    },
                    Option::None => {},
                }
            }
            j = j + 1;
        }
        proof {
            if shadowed(*self, sources@, si as int) {
                let cj = choose|cj: int|
                    si < cj < sources@.len() && (#[trigger] sources@[cj]).ty@ == sources@[si as int].ty@ && has_src(self.sources@, sources@[cj].ty@);
                assert(false);
            }
        }
        false
    }

    /// Load a serialized configuration.
    ///
    /// Filters defined in `config` may add new actions to `session`: every
    /// filter entry's derived source actions are created first, then each
    /// filter body is loaded, then each input-source entry. Register the
    /// desired input sources, and create all desired actions in the
    /// session, before loading. Malformed entries are recorded in the
    /// returned errors but do not stop loading: every well-formed entry
    /// still takes effect in the resulting bindings. A later entry for the
    /// same registered source replaces an earlier one's bindings.
    pub fn load(&self, session: &mut Session, config: &Config) -> (r: (Bindings, Vec<LoadError>))
        requires
            self.wf(),
            old(session).wf(),
            old(session)@.len() + 4 * config.filters@.len() <= u32::MAX,
        ensures
            final(session).wf(),
            old(session)@.len() <= final(session)@.len(),
            forall|i: int|
                0 <= i < old(session)@.len() ==> final(session)@[i] == old(session)@[i],
            config.filters@.len() == 0 ==> final(session)@ == old(session)@,
            r.0.wf(),
            r.0.session_matches(*final(session)),
            forall|im: InputModel, a: ActionId|
                #[trigger] r.0.bound(im).contains(a) <==> loaded_binds(
                    *self,
                    *final(session),
                    config.sources@,
                    im,
                    a,
                ),
            forall|nm: Seq<char>|
                #[trigger] errs_unknown_source(r.1@, nm) <==> (exists|ci: int|
                    0 <= ci < config.sources@.len() && (#[trigger] config.sources@[ci]).ty@ == nm
                        && !has_src(self.sources@, nm)),
            forall|nm: Seq<char>|
                #[trigger] errs_unknown_action(r.1@, nm) <==> (exists|ci: int, bi: int|
                    causes_unknown_action(*self, *final(session), config.sources@, ci, bi, nm)),
            forall|text: Seq<char>|
                #[trigger] errs_unknown_input(r.1@, text) <==> (exists|ci: int, bi: int, xi: int|
                    causes_unknown_input(*self, *final(session), config.sources@, ci, bi, xi, text)),
            forall|nm: Seq<char>, text: Seq<char>, actual: TypeTag, expected: Seq<TypeTag>|
                #[trigger] errs_input_type_error(r.1@, nm, text, actual, expected) <==> (exists|
                    ci: int,
                    bi: int,
                    xi: int,
                |
                    causes_input_type_error(
                        *self,
                        *final(session),
                        config.sources@,
                        ci,
                        bi,
                        xi,
                        nm,
                        text,
                        actual,
                        expected,
                    )),
            forall|ty: Seq<char>|
                #[trigger] errs_unknown_filter(r.1@, ty) <==> (exists|j: int|
                    0 <= j < config.filters@.len() && (#[trigger] config.filters@[j]).ty@ == ty && !(
                    self.dpad_filter && ty == "dpad"@)),
            final(session)@ == pass1_session(
                *self,
                old(session)@,
                config.filters@,
                config.filters@.len() as int,
            ),
            r.0.filters@ == loaded_filters(
                *self,
                *final(session),
                config.filters@,
                config.filters@.len() as int,
            ),
            forall|a: ActionId| #[trigger] r.0.filter_for(a) == last_consumer(r.0.filters@, a),
            forall|n: usize|
                #[trigger] errs_wrong_output_count(r.1@, n) <==> (n == 1usize && (exists|j: int|
                    causes_wrong_output_count(*self, config.filters@, j))),
            forall|nm: Seq<char>|
                #[trigger] errs_duplicate_source(r.1@, nm) <==> (exists|j: int|
                    causes_duplicate_source(*self, old(session)@, config.filters@, j, nm)),
            forall|nm: Seq<char>|
                #[trigger] errs_unknown_target(r.1@, nm) <==> (exists|j: int|
                    causes_unknown_target(*self, *final(session), config.filters@, j, nm)),
            forall|fty: Seq<char>, act: Seq<char>, err: TypeError|
                #[trigger] errs_filter_type_error(r.1@, fty, act, err) <==> (exists|j: int|
                    causes_filter_type_error(*self, *final(session), config.filters@, j, fty, act, err)),
            r.1@.len() == n_errs_pass1(
                *self,
                old(session)@,
                config.filters@,
                config.filters@.len() as int,
            ) + n_errs_pass2(
                *self,
                *final(session),
                config.filters@,
                config.filters@.len() as int,
            ) + n_errs_sources(
                *self,
                *final(session),
                config.sources@,
                config.sources@.len() as int,
            ),
    {
        let mut bindings = Bindings::new();
        let mut errors: Vec<LoadError> = Vec::new();
        let dpad_name: String = "dpad".to_owned();
        proof {
            assert forall|nm: Seq<char>| !(#[trigger] errs_unknown_source(errors@, nm)) by {
                if errs_unknown_source(errors@, nm) {
                    let i = choose|i: int|
                        0 <= i < errors@.len() && ((#[trigger] errors@[i]) matches LoadError::UnknownSource { name }
                            && name@ == nm);
                }
            }
            assert forall|nm: Seq<char>| !(#[trigger] errs_unknown_action(errors@, nm)) by {
                if errs_unknown_action(errors@, nm) {
                    let i = choose|i: int|
                        0 <= i < errors@.len() && ((#[trigger] errors@[i]) matches LoadError::UnknownAction { name }
                            && name@ == nm);
                }
            }
            assert forall|text: Seq<char>| !(#[trigger] errs_unknown_input(errors@, text)) by {
                if errs_unknown_input(errors@, text) {
                    let i = choose|i: int|
                        0 <= i < errors@.len() && ((#[trigger] errors@[i]) matches LoadError::UnknownInput { input }
                            && input@ == text);
                }
            }
            assert forall|nm: Seq<char>, text: Seq<char>, actual: TypeTag, expected: Seq<TypeTag>|
                !(#[trigger] errs_input_type_error(errors@, nm, text, actual, expected)) by {
                if errs_input_type_error(errors@, nm, text, actual, expected) {
                    let i = choose|i: int|
                        0 <= i < errors@.len() && ((#[trigger] errors@[i]) matches LoadError::InputTypeError {
                            action_name,
                            input,
                            actual: act,
                            expected: exp,
                        } && action_name@ == nm && input@ == text && act == actual && exp@
                            == expected);
                }
            }
            assert forall|ty: Seq<char>| !(#[trigger] errs_unknown_filter(errors@, ty)) by {
                if errs_unknown_filter(errors@, ty) {
                    let i = choose|i: int|
                        0 <= i < errors@.len() && ((#[trigger] errors@[i]) matches LoadError::Filter(
                            FilterLoadError::UnknownFilter { ty: t },
                        ) && t@ == ty);
                }
            }
            assert forall|n: usize| !(#[trigger] errs_wrong_output_count(errors@, n)) by {
                if errs_wrong_output_count(errors@, n) {
                    let i = choose|i: int|
                        0 <= i < errors@.len() && ((#[trigger] errors@[i]) matches LoadError::Filter(
                            FilterLoadError::WrongOutputCount { expected },
                        ) && expected == n);
                }
            }
            assert forall|nm: Seq<char>| !(#[trigger] errs_duplicate_source(errors@, nm)) by {
                if errs_duplicate_source(errors@, nm) {
                    let i = choose|i: int|
                        0 <= i < errors@.len() && ((#[trigger] errors@[i]) matches LoadError::Filter(
                            FilterLoadError::DuplicateSource { name },
                        ) && name@ == nm);
                }
            }
            assert forall|nm: Seq<char>| !(#[trigger] errs_unknown_target(errors@, nm)) by {
                if errs_unknown_target(errors@, nm) {
                    let i = choose|i: int|
                        0 <= i < errors@.len() && ((#[trigger] errors@[i]) matches LoadError::Filter(
                            FilterLoadError::UnknownTarget { output },
                        ) && output@ == nm);
                }
            }
            assert forall|fty: Seq<char>, act: Seq<char>, err: TypeError|
                !(#[trigger] errs_filter_type_error(errors@, fty, act, err)) by {
                if errs_filter_type_error(errors@, fty, act, err) {
                    let i = choose|i: int|
                        0 <= i < errors@.len() && ((#[trigger] errors@[i]) matches LoadError::Filter(
                            FilterLoadError::TypeError { filter_ty, action, error },
                        ) && filter_ty@ == fty && action@ == act && error == err);
                }
            }
        }
        // Create all filter source actions first so that filters can be
        // chained regardless of declaration order.
        let nf = config.filters.len();
        let mut fi: usize = 0;
        while fi < nf
            invariant
                fi <= nf,
                nf == config.filters@.len(),
                self.wf(),
                session.wf(),
                old(session)@.len() <= session@.len(),
                session@.len() <= old(session)@.len() + 4 * fi,
                old(session)@.len() + 4 * nf <= u32::MAX,
                forall|i: int|
                    0 <= i < old(session)@.len() ==> session@[i] == old(session)@[i],
                bindings.wf(),
                bindings.rows@.len() == 0,
                bindings.filters@.len() == 0,
                bindings.type_table().len() == 0,
                forall|nm: Seq<char>| !(#[trigger] errs_unknown_source(errors@, nm)),
                forall|nm: Seq<char>| !(#[trigger] errs_unknown_action(errors@, nm)),
                forall|text: Seq<char>| !(#[trigger] errs_unknown_input(errors@, text)),
                forall|nm: Seq<char>, text: Seq<char>, actual: TypeTag, expected: Seq<TypeTag>|
                    !(#[trigger] errs_input_type_error(errors@, nm, text, actual, expected)),
                dpad_name@ == "dpad"@,
                forall|ty: Seq<char>|
                    #[trigger] errs_unknown_filter(errors@, ty) <==> (exists|j: int|
                        0 <= j < fi && (#[trigger] config.filters@[j]).ty@ == ty && !(
                        self.dpad_filter && ty == "dpad"@)),
                session@ == pass1_session(*self, old(session)@, config.filters@, fi as int),
                forall|n: usize|
                    #[trigger] errs_wrong_output_count(errors@, n) <==> (n == 1usize && (exists|
                        j: int,
                    |
                        0 <= j < fi && causes_wrong_output_count(*self, config.filters@, j))),
                forall|nm: Seq<char>|
                    #[trigger] errs_duplicate_source(errors@, nm) <==> (exists|j: int|
                        0 <= j < fi && causes_duplicate_source(
                            *self,
                            old(session)@,
                            config.filters@,
                            j,
                            nm,
                        )),
                forall|nm: Seq<char>| !(#[trigger] errs_unknown_target(errors@, nm)),
                forall|fty: Seq<char>, act: Seq<char>, err: TypeError|
                    !(#[trigger] errs_filter_type_error(errors@, fty, act, err)),
                errors@.len() == n_errs_pass1(*self, old(session)@, config.filters@, fi as int),
            decreases nf - fi,
        {
            let fc = &config.filters[fi];
            let ghost pre_errs = errors@;
            let ghost sess_pre = session@;
            let registered = self.dpad_filter && fc.ty == dpad_name;
            proof {
                assert(registered == filter_registered(*self, config.filters@[fi as int]));
            }
            if registered {
                match DPad::create_source_actions(session, fc) {
                    Result::Ok(_) => (),
                    Result::Err(e) => {
                        errors.push(LoadError::Filter(e));
                        proof {
                            lemma_errs_unknown_push(pre_errs, errors@[pre_errs.len() as int]);
                        }
                    },
                }
            } else {
                errors.push(
                    LoadError::Filter(FilterLoadError::UnknownFilter { ty: fc.ty.clone() }),
                );
                proof {
                    lemma_errs_unknown_push(pre_errs, errors@[pre_errs.len() as int]);
                }
            }
            proof {
                assert forall|ty: Seq<char>|
                    #[trigger] errs_unknown_filter(errors@, ty) <==> (exists|j: int|
                        0 <= j < fi + 1 && (#[trigger] config.filters@[j]).ty@ == ty && !(
                        self.dpad_filter && ty == "dpad"@)) by {
                    if errs_unknown_filter(errors@, ty) {
                        if errs_unknown_filter(pre_errs, ty) {
                            let j = choose|j: int|
                                0 <= j < fi && (#[trigger] config.filters@[j]).ty@ == ty && !(
                                self.dpad_filter && ty == "dpad"@);
                            assert(0 <= j < fi + 1 && config.filters@[j].ty@ == ty && !(
                            self.dpad_filter && ty == "dpad"@));
                        } else {
                            assert(!registered);
                            assert(config.filters@[fi as int].ty@ == ty);
                            assert(!(self.dpad_filter && ty == "dpad"@));
                        }
                    }
                    if exists|j: int|
                        0 <= j < fi + 1 && (#[trigger] config.filters@[j]).ty@ == ty && !(
                        self.dpad_filter && ty == "dpad"@) {
                        let j = choose|j: int|
                            0 <= j < fi + 1 && (#[trigger] config.filters@[j]).ty@ == ty && !(
                            self.dpad_filter && ty == "dpad"@);
                        if j < fi {
                            assert(errs_unknown_filter(pre_errs, ty));
                        } else {
                            assert(!registered);
                        }
                        assert(errs_unknown_filter(errors@, ty));
                    }
                }
                // The session effect of this entry matches one step of the
                // creation-pass model.
                assert(session@ == pass1_session(
                    *self,
                    old(session)@,
                    config.filters@,
                    fi as int + 1,
                ));
                assert(errors@.len() == n_errs_pass1(
                    *self,
                    old(session)@,
                    config.filters@,
                    fi as int + 1,
                ));
                assert forall|n: usize|
                    #[trigger] errs_wrong_output_count(errors@, n) <==> (n == 1usize && (exists|
                        j: int,
                    |
                        0 <= j < fi + 1 && causes_wrong_output_count(
                            *self,
                            config.filters@,
                            j,
                        ))) by {
                    if errs_wrong_output_count(errors@, n) {
                        if errs_wrong_output_count(pre_errs, n) {
                            let j = choose|j: int|
                                0 <= j < fi && causes_wrong_output_count(*self, config.filters@, j);
                            assert(0 <= j < fi + 1 && causes_wrong_output_count(
                                *self,
                                config.filters@,
                                j,
                            ));
                        } else {
                            assert(causes_wrong_output_count(*self, config.filters@, fi as int));
                        }
                    }
                    if n == 1usize && (exists|j: int|
                        0 <= j < fi + 1 && causes_wrong_output_count(*self, config.filters@, j)) {
                        let j = choose|j: int|
                            0 <= j < fi + 1 && causes_wrong_output_count(*self, config.filters@, j);
                        if j < fi {
                            assert(errs_wrong_output_count(pre_errs, n));
                        }
                        assert(errs_wrong_output_count(errors@, n));
                    }
                }
                assert forall|nm: Seq<char>|
                    #[trigger] errs_duplicate_source(errors@, nm) <==> (exists|j: int|
                        0 <= j < fi + 1 && causes_duplicate_source(
                            *self,
                            old(session)@,
                            config.filters@,
                            j,
                            nm,
                        )) by {
                    if errs_duplicate_source(errors@, nm) {
                        if errs_duplicate_source(pre_errs, nm) {
                            let j = choose|j: int|
                                0 <= j < fi && causes_duplicate_source(
                                    *self,
                                    old(session)@,
                                    config.filters@,
                                    j,
                                    nm,
                                );
                            assert(0 <= j < fi + 1 && causes_duplicate_source(
                                *self,
                                old(session)@,
                                config.filters@,
                                j,
                                nm,
                            ));
                        } else {
                            assert(causes_duplicate_source(
                                *self,
                                old(session)@,
                                config.filters@,
                                fi as int,
                                nm,
                            ));
                        }
                    }
                    if exists|j: int|
                        0 <= j < fi + 1 && causes_duplicate_source(
                            *self,
                            old(session)@,
                            config.filters@,
                            j,
                            nm,
                        ) {
                        let j = choose|j: int|
                            0 <= j < fi + 1 && causes_duplicate_source(
                                *self,
                                old(session)@,
                                config.filters@,
                                j,
                                nm,
                            );
                        if j < fi {
                            assert(errs_duplicate_source(pre_errs, nm));
                        }
                        assert(errs_duplicate_source(errors@, nm));
                    }
                }
            }
            fi = fi + 1;
        }
        proof {
            if nf == 0 {
                assert(session@ =~= old(session)@);
            }
        }
        // Load the filter bodies.
        let ghost ss2: Session = *session;
        proof {
            assert(loaded_filters(*self, ss2, config.filters@, 0) =~= Seq::<Filter>::empty());
            assert(n_errs_pass2(*self, ss2, config.filters@, 0) == 0);
            assert forall|a: ActionId|
                #[trigger] bindings.filter_for(a) == last_consumer(bindings.filters@, a) by {
                if crate::bindings::fsq_has(bindings.filter_sources@, a) {
                    let i = crate::bindings::fsq_idx(bindings.filter_sources@, a);
                }
                assert(last_consumer(bindings.filters@, a) == None::<int>);
            }
        }
        fi = 0;
        while fi < nf
            invariant
                fi <= nf,
                nf == config.filters@.len(),
                self.wf(),
                *session == ss2,
                session.wf(),
                bindings.wf(),
                bindings.rows@.len() == 0,
                bindings.session_matches(*session),
                forall|nm: Seq<char>| !(#[trigger] errs_unknown_source(errors@, nm)),
                forall|nm: Seq<char>| !(#[trigger] errs_unknown_action(errors@, nm)),
                forall|text: Seq<char>| !(#[trigger] errs_unknown_input(errors@, text)),
                forall|nm: Seq<char>, text: Seq<char>, actual: TypeTag, expected: Seq<TypeTag>|
                    !(#[trigger] errs_input_type_error(errors@, nm, text, actual, expected)),
                forall|ty: Seq<char>|
                    #[trigger] errs_unknown_filter(errors@, ty) <==> (exists|j: int|
                        0 <= j < nf && (#[trigger] config.filters@[j]).ty@ == ty && !(
                        self.dpad_filter && ty == "dpad"@)),
                dpad_name@ == "dpad"@,
                forall|n: usize|
                    #[trigger] errs_wrong_output_count(errors@, n) <==> (n == 1usize && (exists|
                        j: int,
                    |
                        0 <= j < nf && causes_wrong_output_count(*self, config.filters@, j))),
                forall|nm: Seq<char>|
                    #[trigger] errs_duplicate_source(errors@, nm) <==> (exists|j: int|
                        0 <= j < nf && causes_duplicate_source(
                            *self,
                            old(session)@,
                            config.filters@,
                            j,
                            nm,
                        )),
                bindings.filters@ == loaded_filters(*self, ss2, config.filters@, fi as int),
                forall|a: ActionId|
                    #[trigger] bindings.filter_for(a) == last_consumer(bindings.filters@, a),
                forall|nm: Seq<char>|
                    #[trigger] errs_unknown_target(errors@, nm) <==> (exists|j: int|
                        0 <= j < fi && causes_unknown_target(*self, ss2, config.filters@, j, nm)),
                forall|fty: Seq<char>, act: Seq<char>, err: TypeError|
                    #[trigger] errs_filter_type_error(errors@, fty, act, err) <==> (exists|j: int|
                        0 <= j < fi && causes_filter_type_error(
                            *self,
                            ss2,
                            config.filters@,
                            j,
                            fty,
                            act,
                            err,
                        )),
                errors@.len() == n_errs_pass1(
                    *self,
                    old(session)@,
                    config.filters@,
                    nf as int,
                ) + n_errs_pass2(*self, ss2, config.filters@, fi as int),
            decreases nf - fi,
        {
            let fc = &config.filters[fi];
            let ghost pre_errs = errors@;
            let registered = self.dpad_filter && fc.ty == dpad_name;
            proof {
                assert(registered == filter_registered(*self, config.filters@[fi as int]));
            }
            if registered {
                if fc.targets.len() == 1 {
                    if DPad::sources_ready(session, fc.targets[0].as_str()) {
                        match DPad::load(session, fc) {
                            Result::Ok(d) => {
                                proof {
                                    assert(d.wf());
                                    assert(Filter::DPad(d).types_ok(
                                        crate::session::session_types(*session),
                                    )) by {
                                        assert(crate::graph::dpad_source(d, 0) == d.up);
                                        assert(crate::graph::dpad_source(d, 1) == d.left);
                                        assert(crate::graph::dpad_source(d, 2) == d.down);
                                        assert(crate::graph::dpad_source(d, 3) == d.right);
                                    }
                                    assert(dpad_loadable(*self, ss2, config.filters@[fi as int]));
                                    assert(d == dpad_loaded(ss2, config.filters@[fi as int].targets@[0]@)) by {
                                        assert(crate::graph::dpad_source(d, 0) == d.up);
                                        assert(crate::graph::dpad_source(d, 1) == d.left);
                                        assert(crate::graph::dpad_source(d, 2) == d.down);
                                        assert(crate::graph::dpad_source(d, 3) == d.right);
                                    }
                                }
                                let ghost pre_b = bindings;
                                bindings.add_filter(Filter::DPad(d), session);
                                proof {
                                    assert(bindings.filters@ =~= loaded_filters(
                                        *self,
                                        ss2,
                                        config.filters@,
                                        fi as int + 1,
                                    ));
                                    assert forall|a: ActionId|
                                        #[trigger] bindings.filter_for(a) == last_consumer(
                                            bindings.filters@,
                                            a,
                                        ) by {
                                        lemma_last_consumer_push(
                                            pre_b.filters@,
                                            Filter::DPad(d),
                                            a,
                                        );
                                    }
                                }
                            },
                            Result::Err(e) => {
                                errors.push(LoadError::Filter(e));
                                proof {
                                    lemma_errs_unknown_push(
                                        pre_errs,
                                        errors@[pre_errs.len() as int],
                                    );
                                    assert(!dpad_loadable(
                                        *self,
                                        ss2,
                                        config.filters@[fi as int],
                                    ));
                                }
                            },
                        }
                    } else {
                        proof {
                            assert(!dpad_loadable(*self, ss2, config.filters@[fi as int]));
                        }
                    }
                } else {
                    proof {
                        assert(!dpad_loadable(*self, ss2, config.filters@[fi as int]));
                    }
                }
            } else {
                proof {
                    assert(!dpad_loadable(*self, ss2, config.filters@[fi as int]));
                }
            }
            proof {
                assert(bindings.filters@ =~= loaded_filters(
                    *self,
                    ss2,
                    config.filters@,
                    fi as int + 1,
                ));
                assert(errors@.len() == n_errs_pass1(
                    *self,
                    old(session)@,
                    config.filters@,
                    nf as int,
                ) + n_errs_pass2(*self, ss2, config.filters@, fi as int + 1));
                assert forall|nm: Seq<char>|
                    #[trigger] errs_unknown_target(errors@, nm) <==> (exists|j: int|
                        0 <= j < fi + 1 && causes_unknown_target(
                            *self,
                            ss2,
                            config.filters@,
                            j,
                            nm,
                        )) by {
                    if errs_unknown_target(errors@, nm) {
                        if errs_unknown_target(pre_errs, nm) {
                            let j = choose|j: int|
                                0 <= j < fi && causes_unknown_target(
                                    *self,
                                    ss2,
                                    config.filters@,
                                    j,
                                    nm,
                                );
                            assert(0 <= j < fi + 1 && causes_unknown_target(
                                *self,
                                ss2,
                                config.filters@,
                                j,
                                nm,
                            ));
                        } else {
                            assert(causes_unknown_target(
                                *self,
                                ss2,
                                config.filters@,
                                fi as int,
                                nm,
                            ));
                        }
                    }
                    if exists|j: int|
                        0 <= j < fi + 1 && causes_unknown_target(
                            *self,
                            ss2,
                            config.filters@,
                            j,
                            nm,
                        ) {
                        let j = choose|j: int|
                            0 <= j < fi + 1 && causes_unknown_target(
                                *self,
                                ss2,
                                config.filters@,
                                j,
                                nm,
                            );
                        if j < fi {
                            assert(errs_unknown_target(pre_errs, nm));
                        }
                        assert(errs_unknown_target(errors@, nm));
                    }
                }
                assert forall|fty: Seq<char>, act: Seq<char>, err: TypeError|
                    #[trigger] errs_filter_type_error(errors@, fty, act, err) <==> (exists|j: int|
                        0 <= j < fi + 1 && causes_filter_type_error(
                            *self,
                            ss2,
                            config.filters@,
                            j,
                            fty,
                            act,
                            err,
                        )) by {
                    if errs_filter_type_error(errors@, fty, act, err) {
                        if errs_filter_type_error(pre_errs, fty, act, err) {
                            let j = choose|j: int|
                                0 <= j < fi && causes_filter_type_error(
                                    *self,
                                    ss2,
                                    config.filters@,
                                    j,
                                    fty,
                                    act,
                                    err,
                                );
                            assert(0 <= j < fi + 1 && causes_filter_type_error(
                                *self,
                                ss2,
                                config.filters@,
                                j,
                                fty,
                                act,
                                err,
                            ));
                        } else {
                            assert(causes_filter_type_error(
                                *self,
                                ss2,
                                config.filters@,
                                fi as int,
                                fty,
                                act,
                                err,
                            ));
                        }
                    }
                    if exists|j: int|
                        0 <= j < fi + 1 && causes_filter_type_error(
                            *self,
                            ss2,
                            config.filters@,
                            j,
                            fty,
                            act,
                            err,
                        ) {
                        let j = choose|j: int|
                            0 <= j < fi + 1 && causes_filter_type_error(
                                *self,
                                ss2,
                                config.filters@,
                                j,
                                fty,
                                act,
                                err,
                            );
                        if j < fi {
                            assert(errs_filter_type_error(pre_errs, fty, act, err));
                        }
                        assert(errs_filter_type_error(errors@, fty, act, err));
                    }
                }
            }
            fi = fi + 1;
        }
        // Load the input-source entries.
        let ghost ss: Session = *session;
        let ghost cfgs = config.sources@;
        proof {
            assert(n_errs_sources(*self, ss, cfgs, 0) == 0);
            assert forall|im: InputModel, a: ActionId|
                !(#[trigger] bindings.bound(im).contains(a)) by {
                if bindings.has_row(im) {
                    let i = bindings.row_idx(im);
                }
                assert(bindings.bound(im) == Seq::<ActionId>::empty());
            }
            assert forall|im: InputModel, a: ActionId|
                !(#[trigger] loaded_upto(*self, ss, cfgs, im, a, 0, 0, 0)) by {
                if loaded_upto(*self, ss, cfgs, im, a, 0, 0, 0) {
                    let (ci, bi, xi): (int, int, int) = choose|ci: int, bi: int, xi: int|
                        pos_before(ci, bi, xi, 0, 0, 0) && #[trigger] pair_loads(
                            *self,
                            ss,
                            cfgs,
                            ci,
                            bi,
                            xi,
                            im,
                            a,
                        );
                }
            }
            assert forall|nm: Seq<char>| !(#[trigger] cause_ua_upto(*self, ss, cfgs, nm, 0, 0)) by {
                if cause_ua_upto(*self, ss, cfgs, nm, 0, 0) {
                    let (ci, bi): (int, int) = choose|ci: int, bi: int|
                        pos2_before(ci, bi, 0, 0) && #[trigger] causes_unknown_action(
                            *self,
                            ss,
                            cfgs,
                            ci,
                            bi,
                            nm,
                        );
                }
            }
            assert forall|text: Seq<char>|
                !(#[trigger] cause_ui_upto(*self, ss, cfgs, text, 0, 0, 0)) by {
                if cause_ui_upto(*self, ss, cfgs, text, 0, 0, 0) {
                    let (ci, bi, xi): (int, int, int) = choose|ci: int, bi: int, xi: int|
                        pos_before(ci, bi, xi, 0, 0, 0) && #[trigger] causes_unknown_input(
                            *self,
                            ss,
                            cfgs,
                            ci,
                            bi,
                            xi,
                            text,
                        );
                }
            }
            assert forall|nm: Seq<char>, text: Seq<char>, actual: TypeTag, expected: Seq<TypeTag>|
                !(#[trigger] cause_ite_upto(*self, ss, cfgs, nm, text, actual, expected, 0, 0, 0)) by {
                if cause_ite_upto(*self, ss, cfgs, nm, text, actual, expected, 0, 0, 0) {
                    let (ci, bi, xi): (int, int, int) = choose|ci: int, bi: int, xi: int|
                        pos_before(ci, bi, xi, 0, 0, 0) && #[trigger] causes_input_type_error(
                            *self,
                            ss,
                            cfgs,
                            ci,
                            bi,
                            xi,
                            nm,
                            text,
                            actual,
                            expected,
                        );
                }
            }
        }
        let ns = config.sources.len();
        let mut si: usize = 0;
        while si < ns
            invariant
                si <= ns,
                ns == cfgs.len(),
                cfgs == config.sources@,
                self.wf(),
                *session == ss,
                ss.wf(),
                bindings.wf(),
                bindings.session_matches(ss),
                forall|im: InputModel, a: ActionId|
                    #[trigger] bindings.bound(im).contains(a) <==> loaded_upto(
                        *self,
                        ss,
                        cfgs,
                        im,
                        a,
                        si as int,
                        0,
                        0,
                    ),
                forall|nm: Seq<char>|
                    #[trigger] errs_unknown_source(errors@, nm) <==> (exists|ci: int|
                        0 <= ci < si && (#[trigger] cfgs[ci]).ty@ == nm && !has_src(
                            self.sources@,
                            nm,
                        )),
                forall|nm: Seq<char>|
                    #[trigger] errs_unknown_action(errors@, nm) <==> cause_ua_upto(
                        *self,
                        ss,
                        cfgs,
                        nm,
                        si as int,
                        0,
                    ),
                forall|text: Seq<char>|
                    #[trigger] errs_unknown_input(errors@, text) <==> cause_ui_upto(
                        *self,
                        ss,
                        cfgs,
                        text,
                        si as int,
                        0,
                        0,
                    ),
                forall|nm: Seq<char>, text: Seq<char>, actual: TypeTag, expected: Seq<TypeTag>|
                    #[trigger] errs_input_type_error(errors@, nm, text, actual, expected)
                        <==> cause_ite_upto(
                        *self,
                        ss,
                        cfgs,
                        nm,
                        text,
                        actual,
                        expected,
                        si as int,
                        0,
                        0,
                    ),
                forall|ty: Seq<char>|
                    #[trigger] errs_unknown_filter(errors@, ty) <==> (exists|j: int|
                        0 <= j < config.filters@.len() && (#[trigger] config.filters@[j]).ty@ == ty
                            && !(self.dpad_filter && ty == "dpad"@)),
                bindings.filters@ == loaded_filters(
                    *self,
                    ss2,
                    config.filters@,
                    config.filters@.len() as int,
                ),
                forall|a: ActionId|
                    #[trigger] bindings.filter_for(a) == last_consumer(bindings.filters@, a),
                forall|n: usize|
                    #[trigger] errs_wrong_output_count(errors@, n) <==> (n == 1usize && (exists|
                        j: int,
                    |
                        causes_wrong_output_count(*self, config.filters@, j))),
                forall|nm2: Seq<char>|
                    #[trigger] errs_duplicate_source(errors@, nm2) <==> (exists|j: int|
                        causes_duplicate_source(*self, old(session)@, config.filters@, j, nm2)),
                forall|nm2: Seq<char>|
                    #[trigger] errs_unknown_target(errors@, nm2) <==> (exists|j: int|
                        causes_unknown_target(*self, ss2, config.filters@, j, nm2)),
                forall|fty: Seq<char>, act: Seq<char>, err: TypeError|
                    #[trigger] errs_filter_type_error(errors@, fty, act, err) <==> (exists|j: int|
                        causes_filter_type_error(*self, ss2, config.filters@, j, fty, act, err)),
                errors@.len() == n_errs_pass1(
                    *self,
                    old(session)@,
                    config.filters@,
                    config.filters@.len() as int,
                ) + n_errs_pass2(
                    *self,
                    ss2,
                    config.filters@,
                    config.filters@.len() as int,
                ) + n_errs_sources(*self, ss, cfgs, si as int),
            decreases ns - si,
        {
            let sc = &config.sources[si];
            let ghost pre_errs = errors@;
            match self.find_src(&sc.ty) {
                Option::None => {
                    errors.push(LoadError::UnknownSource { name: sc.ty.clone() });
                    proof {
                        lemma_errs_unknown_push(pre_errs, errors@[pre_errs.len() as int]);
                        lemma_loaded_upto_entry_skip(*self, ss, cfgs, si as int);
                        lemma_ua_entry(*self, ss, cfgs, si as int, 0);
                        lemma_ui_entry(*self, ss, cfgs, si as int, 0);
                        lemma_ite_entry(*self, ss, cfgs, si as int, 0);
                        assert forall|nm: Seq<char>|
                            #[trigger] errs_unknown_source(errors@, nm) <==> (exists|ci: int|
                                0 <= ci < si + 1 && (#[trigger] cfgs[ci]).ty@ == nm && !has_src(
                                    self.sources@,
                                    nm,
                                )) by {
                            if errs_unknown_source(errors@, nm) {
                                if errs_unknown_source(pre_errs, nm) {
                                    let ci = choose|ci: int|
                                        0 <= ci < si && (#[trigger] cfgs[ci]).ty@ == nm
                                            && !has_src(self.sources@, nm);
                                    assert(0 <= ci < si + 1 && cfgs[ci].ty@ == nm && !has_src(
                                        self.sources@,
                                        nm,
                                    ));
                                } else {
                                    assert(cfgs[si as int].ty@ == nm && !has_src(
                                        self.sources@,
                                        nm,
                                    ));
                                }
                            }
                            if exists|ci: int|
                                0 <= ci < si + 1 && (#[trigger] cfgs[ci]).ty@ == nm && !has_src(
                                    self.sources@,
                                    nm,
                                ) {
                                let ci = choose|ci: int|
                                    0 <= ci < si + 1 && (#[trigger] cfgs[ci]).ty@ == nm
                                        && !has_src(self.sources@, nm);
                                if ci < si {
                                    assert(errs_unknown_source(pre_errs, nm));
                                }
                                assert(errs_unknown_source(errors@, nm));
                            }
                        }
                    }
                },
                Option::Some(spi) => {
                    let entry_shadowed = self.is_shadowed(&config.sources, si);
                    let np = sc.bindings.len();
                    let mut pi: usize = 0;
                    while pi < np
                        invariant
                            pi <= np,
                            si < ns,
                            ns == cfgs.len(),
                            cfgs == config.sources@,
                            np == cfgs[si as int].bindings@.len(),
                            *sc == cfgs[si as int],
                            self.wf(),
                            *session == ss,
                            ss.wf(),
                            bindings.wf(),
                            bindings.session_matches(ss),
                            spi < self.sources@.len(),
                            spi as int == src_idx(self.sources@, cfgs[si as int].ty@),
                            self.sources@[spi as int].name@ == cfgs[si as int].ty@,
                            has_src(self.sources@, cfgs[si as int].ty@),
                            entry_shadowed == shadowed(*self, cfgs, si as int),
                            forall|im: InputModel, a: ActionId|
                                #[trigger] bindings.bound(im).contains(a) <==> loaded_upto(
                                    *self,
                                    ss,
                                    cfgs,
                                    im,
                                    a,
                                    si as int,
                                    pi as int,
                                    0,
                                ),
                            forall|nm: Seq<char>|
                                #[trigger] errs_unknown_source(errors@, nm) <==> (exists|ci: int|
                                    0 <= ci < si && (#[trigger] cfgs[ci]).ty@ == nm && !has_src(
                                        self.sources@,
                                        nm,
                                    )),
                            forall|nm: Seq<char>|
                                #[trigger] errs_unknown_action(errors@, nm) <==> cause_ua_upto(
                                    *self,
                                    ss,
                                    cfgs,
                                    nm,
                                    si as int,
                                    pi as int,
                                ),
                            forall|text: Seq<char>|
                                #[trigger] errs_unknown_input(errors@, text) <==> cause_ui_upto(
                                    *self,
                                    ss,
                                    cfgs,
                                    text,
                                    si as int,
                                    pi as int,
                                    0,
                                ),
                            forall|nm: Seq<char>, text: Seq<char>, actual: TypeTag, expected: Seq<TypeTag>|
                                #[trigger] errs_input_type_error(errors@, nm, text, actual, expected)
                                    <==> cause_ite_upto(
                                    *self,
                                    ss,
                                    cfgs,
                                    nm,
                                    text,
                                    actual,
                                    expected,
                                    si as int,
                                    pi as int,
                                    0,
                                ),
                            forall|ty: Seq<char>|
                                #[trigger] errs_unknown_filter(errors@, ty) <==> (exists|j: int|
                                    0 <= j < config.filters@.len() && (#[trigger] config.filters@[j]).ty@ == ty
                                        && !(self.dpad_filter && ty == "dpad"@)),
                            bindings.filters@ == loaded_filters(
                                *self,
                                ss2,
                                config.filters@,
                                config.filters@.len() as int,
                            ),
                            forall|a: ActionId|
                                #[trigger] bindings.filter_for(a) == last_consumer(bindings.filters@, a),
                            forall|n: usize|
                                #[trigger] errs_wrong_output_count(errors@, n) <==> (n == 1usize && (exists|
                                    j: int,
                                |
                                    causes_wrong_output_count(*self, config.filters@, j))),
                            forall|nm2: Seq<char>|
                                #[trigger] errs_duplicate_source(errors@, nm2) <==> (exists|j: int|
                                    causes_duplicate_source(*self, old(session)@, config.filters@, j, nm2)),
                            forall|nm2: Seq<char>|
                                #[trigger] errs_unknown_target(errors@, nm2) <==> (exists|j: int|
                                    causes_unknown_target(*self, ss2, config.filters@, j, nm2)),
                            forall|fty: Seq<char>, act: Seq<char>, err: TypeError|
                                #[trigger] errs_filter_type_error(errors@, fty, act, err) <==> (exists|j: int|
                                    causes_filter_type_error(*self, ss2, config.filters@, j, fty, act, err)),
                            errors@.len() == n_errs_pass1(
                                *self,
                                old(session)@,
                                config.filters@,
                                config.filters@.len() as int,
                            ) + n_errs_pass2(
                                *self,
                                ss2,
                                config.filters@,
                                config.filters@.len() as int,
                            ) + n_errs_sources(*self, ss, cfgs, si as int) + n_errs_pairs(
                                *self,
                                ss,
                                cfgs[si as int],
                                pi as int,
                            ),
                        decreases np - pi,
                    {
                        let name = &sc.bindings[pi].0;
                        let ghost pre_errs2 = errors@;
                        match session.action_id(name.as_str()) {
                            Option::None => {
                                errors.push(LoadError::UnknownAction { name: name.clone() });
                                proof {
                                    lemma_errs_unknown_push(
                                        pre_errs2,
                                        errors@[pre_errs2.len() as int],
                                    );
                                    lemma_loaded_upto_pair_skip(
                                        *self,
                                        ss,
                                        cfgs,
                                        si as int,
                                        pi as int,
                                    );
                                    lemma_ua_step(*self, ss, cfgs, si as int, pi as int);
                                    assert(causes_unknown_action(
                                        *self,
                                        ss,
                                        cfgs,
                                        si as int,
                                        pi as int,
                                        name@,
                                    ));
                                    lemma_ui_pair(*self, ss, cfgs, si as int, pi as int, 0);
                                    lemma_ite_pair(*self, ss, cfgs, si as int, pi as int, 0);
                                }
                            },
                            Option::Some(action) => {
                                let want = session.action_tag(action);
                                let nt = sc.bindings[pi].1.len();
                                let mut ti: usize = 0;
                                while ti < nt
                                    invariant
                                        ti <= nt,
                                        pi < np,
                                        si < ns,
                                        ns == cfgs.len(),
                                        cfgs == config.sources@,
                                        np == cfgs[si as int].bindings@.len(),
                                        nt == cfgs[si as int].bindings@[pi as int].1@.len(),
                                        *sc == cfgs[si as int],
                                        self.wf(),
                                        *session == ss,
                                        ss.wf(),
                                        bindings.wf(),
                                        bindings.session_matches(ss),
                                        spi < self.sources@.len(),
                                        spi as int == src_idx(self.sources@, cfgs[si as int].ty@),
                                        self.sources@[spi as int].name@ == cfgs[si as int].ty@,
                                        has_src(self.sources@, cfgs[si as int].ty@),
                                        entry_shadowed == shadowed(*self, cfgs, si as int),
                                        ss.has_name(cfgs[si as int].bindings@[pi as int].0@),
                                        ss.defines(action),
                                        action.0 as int == ss.id_of(
                                            cfgs[si as int].bindings@[pi as int].0@,
                                        ),
                                        want == ss@[action.0 as int].tag,
                                        forall|im: InputModel, a: ActionId|
                                            #[trigger] bindings.bound(im).contains(a)
                                                <==> loaded_upto(
                                                *self,
                                                ss,
                                                cfgs,
                                                im,
                                                a,
                                                si as int,
                                                pi as int,
                                                ti as int,
                                            ),
                                        forall|nm: Seq<char>|
                                            #[trigger] errs_unknown_source(errors@, nm) <==> (
                                            exists|ci: int|
                                                0 <= ci < si && (#[trigger] cfgs[ci]).ty@ == nm
                                                    && !has_src(self.sources@, nm)),
                                        name@ == cfgs[si as int].bindings@[pi as int].0@,
                                        forall|nm: Seq<char>|
                                            #[trigger] errs_unknown_action(errors@, nm)
                                                <==> cause_ua_upto(
                                                *self,
                                                ss,
                                                cfgs,
                                                nm,
                                                si as int,
                                                pi as int,
                                            ),
                                        forall|text: Seq<char>|
                                            #[trigger] errs_unknown_input(errors@, text)
                                                <==> cause_ui_upto(
                                                *self,
                                                ss,
                                                cfgs,
                                                text,
                                                si as int,
                                                pi as int,
                                                ti as int,
                                            ),
                                        forall|
                                            nm: Seq<char>,
                                            text: Seq<char>,
                                            actual: TypeTag,
                                            expected: Seq<TypeTag>,
                                        |
                                            #[trigger] errs_input_type_error(
                                                errors@,
                                                nm,
                                                text,
                                                actual,
                                                expected,
                                            ) <==> cause_ite_upto(
                                                *self,
                                                ss,
                                                cfgs,
                                                nm,
                                                text,
                                                actual,
                                                expected,
                                                si as int,
                                                pi as int,
                                                ti as int,
                                            ),
                                        forall|ty: Seq<char>|
                                            #[trigger] errs_unknown_filter(errors@, ty) <==> (
                                            exists|j: int|
                                                0 <= j < config.filters@.len() && (#[trigger] config.filters@[j]).ty@ == ty
                                                    && !(self.dpad_filter && ty == "dpad"@)),
                                        bindings.filters@ == loaded_filters(
                                            *self,
                                            ss2,
                                            config.filters@,
                                            config.filters@.len() as int,
                                        ),
                                        forall|a: ActionId|
                                            #[trigger] bindings.filter_for(a) == last_consumer(bindings.filters@, a),
                                        forall|n: usize|
                                            #[trigger] errs_wrong_output_count(errors@, n) <==> (n == 1usize && (exists|
                                                j: int,
                                            |
                                                causes_wrong_output_count(*self, config.filters@, j))),
                                        forall|nm2: Seq<char>|
                                            #[trigger] errs_duplicate_source(errors@, nm2) <==> (exists|j: int|
                                                causes_duplicate_source(*self, old(session)@, config.filters@, j, nm2)),
                                        forall|nm2: Seq<char>|
                                            #[trigger] errs_unknown_target(errors@, nm2) <==> (exists|j: int|
                                                causes_unknown_target(*self, ss2, config.filters@, j, nm2)),
                                        forall|fty: Seq<char>, act: Seq<char>, err: TypeError|
                                            #[trigger] errs_filter_type_error(errors@, fty, act, err) <==> (exists|j: int|
                                                causes_filter_type_error(*self, ss2, config.filters@, j, fty, act, err)),
                                        errors@.len() == n_errs_pass1(
                                            *self,
                                            old(session)@,
                                            config.filters@,
                                            config.filters@.len() as int,
                                        ) + n_errs_pass2(
                                            *self,
                                            ss2,
                                            config.filters@,
                                            config.filters@.len() as int,
                                        ) + n_errs_sources(*self, ss, cfgs, si as int)
                                            + n_errs_pairs(*self, ss, cfgs[si as int], pi as int)
                                            + n_errs_texts(
                                            *self,
                                            ss,
                                            cfgs[si as int],
                                            pi as int,
                                            ti as int,
                                        ),
                                    decreases nt - ti,
                                {
                                    let text = &sc.bindings[pi].1[ti];
                                    let ghost pre_errs3 = errors@;
                                    proof {
                                        lemma_loaded_upto_step(
                                            *self,
                                            ss,
                                            cfgs,
                                            si as int,
                                            pi as int,
                                            ti as int,
                                        );
                                        lemma_ui_step(*self, ss, cfgs, si as int, pi as int, ti as int);
                                        lemma_ite_step(*self, ss, cfgs, si as int, pi as int, ti as int);
                                    }
                                    match Self::find_text(&self.sources[spi], text) {
                                        Option::None => {
                                            errors.push(
                                                LoadError::UnknownInput { input: text.clone() },
                                            );
                                            proof {
                                                lemma_errs_unknown_push(
                                                    pre_errs3,
                                                    errors@[pre_errs3.len() as int],
                                                );
                                                assert forall|im: InputModel, a: ActionId|
                                                    !(#[trigger] pair_loads(
                                                        *self,
                                                        ss,
                                                        cfgs,
                                                        si as int,
                                                        pi as int,
                                                        ti as int,
                                                        im,
                                                        a,
                                                    )) by {
                                                    if pair_loads(
                                                        *self,
                                                        ss,
                                                        cfgs,
                                                        si as int,
                                                        pi as int,
                                                        ti as int,
                                                        im,
                                                        a,
                                                    ) {
                                                        assert(im.text == text@);
                                                        assert(im.source == cfgs[si as int].ty@);
                                                        assert(vocab_has(
                                                            self.sources@[spi as int],
                                                            text@,
                                                        ));
                                                    }
                                                }
                                                assert(causes_unknown_input(
                                                    *self,
                                                    ss,
                                                    cfgs,
                                                    si as int,
                                                    pi as int,
                                                    ti as int,
                                                    text@,
                                                ));
                                                assert forall|
                                                    nm2: Seq<char>,
                                                    t2: Seq<char>,
                                                    act: TypeTag,
                                                    exp: Seq<TypeTag>,
                                                |
                                                    !(#[trigger] causes_input_type_error(
                                                        *self,
                                                        ss,
                                                        cfgs,
                                                        si as int,
                                                        pi as int,
                                                        ti as int,
                                                        nm2,
                                                        t2,
                                                        act,
                                                        exp,
                                                    )) by {
                                                    if causes_input_type_error(
                                                        *self,
                                                        ss,
                                                        cfgs,
                                                        si as int,
                                                        pi as int,
                                                        ti as int,
                                                        nm2,
                                                        t2,
                                                        act,
                                                        exp,
                                                    ) {
                                                        assert(t2 == text@);
                                                        assert(vocab_has(
                                                            self.sources@[spi as int],
                                                            text@,
                                                        ));
                                                    }
                                                }
                                            }
                                        },
                                        Option::Some(vi) => {
                                            let tags = &self.sources[spi].vocab[vi].tags;
                                            if tags_contain(tags, want) {
                                                if !entry_shadowed {
                                                    let input = Input {
                                                        source: sc.ty.clone(),
                                                        text: text.clone(),
                                                        tag: want,
                                                    };
                                                    let ghost pre_b = bindings;
                                                    let res = bindings.bind(
                                                        input,
                                                        action,
                                                        session,
                                                    );
                                                    match res {
                                                        Result::Ok(_) => (),
                                                        Result::Err(_) => {
                                                            proof {
                                                                assert(false);
                                                            }
                                                        },
                                                    }
                                                    proof {
                                                        assert forall|a2: ActionId|
                                                            #[trigger] bindings.filter_for(a2)
                                                                == last_consumer(
                                                                bindings.filters@,
                                                                a2,
                                                            ) by {
                                                            assert(pre_b.filter_for(a2)
                                                                == last_consumer(
                                                                pre_b.filters@,
                                                                a2,
                                                            ));
                                                            assert(bindings.filter_sources@
                                                                == pre_b.filter_sources@);
                                                            assert(bindings.filters@
                                                                == pre_b.filters@);
                                                        }
                                                        let im0 = InputModel {
                                                            source: cfgs[si as int].ty@,
                                                            text: text@,
                                                            tag: want,
                                                        };
                                                        assert(pair_loads(
                                                            *self,
                                                            ss,
                                                            cfgs,
                                                            si as int,
                                                            pi as int,
                                                            ti as int,
                                                            im0,
                                                            action,
                                                        ));
                                                        assert forall|im: InputModel, a: ActionId|
                                                            #[trigger] bindings.bound(
                                                                im,
                                                            ).contains(a) <==> loaded_upto(
                                                            *self,
                                                            ss,
                                                            cfgs,
                                                            im,
                                                            a,
                                                            si as int,
                                                            pi as int,
                                                            ti as int + 1,
                                                        ) by {
                                                            lemma_contains_push(
                                                                pre_b.bound(im),
                                                                action,
                                                                a,
                                                            );
                                                            if im == im0 {
                                                                assert(bindings.bound(im0)
                                                                    == pre_b.bound(im0).push(
                                                                    action,
                                                                ));
                                                            } else {
                                                                assert(bindings.bound(im)
                                                                    == pre_b.bound(im));
                                                                if pair_loads(
                                                                    *self,
                                                                    ss,
                                                                    cfgs,
                                                                    si as int,
                                                                    pi as int,
                                                                    ti as int,
                                                                    im,
                                                                    a,
                                                                ) {
                                                                    assert(im.source == im0.source
                                                                        && im.text == im0.text
                                                                        && im.tag == im0.tag);
                                                                    assert(im == im0);
                                                                }
                                                            }
                                                        }
                                                    }
                                                } else {
                                                    proof {
                                                        assert forall|im: InputModel, a: ActionId|
                                                            !(#[trigger] pair_loads(
                                                                *self,
                                                                ss,
                                                                cfgs,
                                                                si as int,
                                                                pi as int,
                                                                ti as int,
                                                                im,
                                                                a,
                                                            )) by {}
                                                    }
                                                }
                                                proof {
                                                    assert forall|t2: Seq<char>|
                                                        !(#[trigger] causes_unknown_input(
                                                            *self,
                                                            ss,
                                                            cfgs,
                                                            si as int,
                                                            pi as int,
                                                            ti as int,
                                                            t2,
                                                        )) by {
                                                        if causes_unknown_input(
                                                            *self,
                                                            ss,
                                                            cfgs,
                                                            si as int,
                                                            pi as int,
                                                            ti as int,
                                                            t2,
                                                        ) {
                                                            assert(t2 == text@);
                                                        }
                                                    }
                                                    assert forall|
                                                        nm2: Seq<char>,
                                                        t2: Seq<char>,
                                                        act: TypeTag,
                                                        exp: Seq<TypeTag>,
                                                    |
                                                        !(#[trigger] causes_input_type_error(
                                                            *self,
                                                            ss,
                                                            cfgs,
                                                            si as int,
                                                            pi as int,
                                                            ti as int,
                                                            nm2,
                                                            t2,
                                                            act,
                                                            exp,
                                                        )) by {
                                                        if causes_input_type_error(
                                                            *self,
                                                            ss,
                                                            cfgs,
                                                            si as int,
                                                            pi as int,
                                                            ti as int,
                                                            nm2,
                                                            t2,
                                                            act,
                                                            exp,
                                                        ) {
                                                            assert(t2 == text@);
                                                            assert(nm2 == name@);
                                                            assert(act == want);
                                                            assert(vocab_tags(
                                                                self.sources@[spi as int],
                                                                text@,
                                                            ).contains(want));
                                                        }
                                                    }
                                                }
                                            } else {
                                                errors.push(
                                                    LoadError::InputTypeError {
                                                        action_name: name.clone(),
                                                        input: text.clone(),
                                                        actual: want,
                                                        expected: clone_tags(tags),
                                                    },
                                                );
                                                proof {
                                                    lemma_errs_unknown_push(
                                                        pre_errs3,
                                                        errors@[pre_errs3.len() as int],
                                                    );
                                                    assert forall|im: InputModel, a: ActionId|
                                                        !(#[trigger] pair_loads(
                                                            *self,
                                                            ss,
                                                            cfgs,
                                                            si as int,
                                                            pi as int,
                                                            ti as int,
                                                            im,
                                                            a,
                                                        )) by {
                                                        if pair_loads(
                                                            *self,
                                                            ss,
                                                            cfgs,
                                                            si as int,
                                                            pi as int,
                                                            ti as int,
                                                            im,
                                                            a,
                                                        ) {
                                                            assert(im.tag == want);
                                                            assert(vocab_tags(
                                                                self.sources@[spi as int],
                                                                text@,
                                                            ).contains(want));
                                                        }
                                                    }
                                                    assert(causes_input_type_error(
                                                        *self,
                                                        ss,
                                                        cfgs,
                                                        si as int,
                                                        pi as int,
                                                        ti as int,
                                                        name@,
                                                        text@,
                                                        want,
                                                        self.sources@[spi as int].vocab@[vi as int].tags@,
                                                    ));
                                                    assert forall|t2: Seq<char>|
                                                        !(#[trigger] causes_unknown_input(
                                                            *self,
                                                            ss,
                                                            cfgs,
                                                            si as int,
                                                            pi as int,
                                                            ti as int,
                                                            t2,
                                                        )) by {
                                                        if causes_unknown_input(
                                                            *self,
                                                            ss,
                                                            cfgs,
                                                            si as int,
                                                            pi as int,
                                                            ti as int,
                                                            t2,
                                                        ) {
                                                            assert(t2 == text@);
                                                            assert(vocab_has(
                                                                self.sources@[spi as int],
                                                                text@,
                                                            ));
                                                        }
                                                    }
                                                }
                                            }
                                        },
                                    }
                                    ti = ti + 1;
                                }
                                proof {
                                    lemma_loaded_upto_pair_boundary(
                                        *self,
                                        ss,
                                        cfgs,
                                        si as int,
                                        pi as int,
                                    );
                                    lemma_ui_pair(*self, ss, cfgs, si as int, pi as int, nt as int);
                                    lemma_ite_pair(*self, ss, cfgs, si as int, pi as int, nt as int);
                                    lemma_ua_step(*self, ss, cfgs, si as int, pi as int);
                                    assert forall|nm: Seq<char>|
                                        !(#[trigger] causes_unknown_action(
                                            *self,
                                            ss,
                                            cfgs,
                                            si as int,
                                            pi as int,
                                            nm,
                                        )) by {
                                        if causes_unknown_action(
                                            *self,
                                            ss,
                                            cfgs,
                                            si as int,
                                            pi as int,
                                            nm,
                                        ) {
                                            assert(nm == cfgs[si as int].bindings@[pi as int].0@);
                                            assert(ss.has_name(nm));
                                        }
                                    }
                                }
                            },
                        }
                        pi = pi + 1;
                    }
                    proof {
                        lemma_loaded_upto_entry_boundary(*self, ss, cfgs, si as int);
                        lemma_ua_entry(*self, ss, cfgs, si as int, np as int);
                        lemma_ui_entry(*self, ss, cfgs, si as int, np as int);
                        lemma_ite_entry(*self, ss, cfgs, si as int, np as int);
                        assert forall|nm: Seq<char>|
                            #[trigger] errs_unknown_source(errors@, nm) <==> (exists|ci: int|
                                0 <= ci < si + 1 && (#[trigger] cfgs[ci]).ty@ == nm && !has_src(
                                    self.sources@,
                                    nm,
                                )) by {
                            if errs_unknown_source(errors@, nm) {
                                let ci = choose|ci: int|
                                    0 <= ci < si && (#[trigger] cfgs[ci]).ty@ == nm && !has_src(
                                        self.sources@,
                                        nm,
                                    );
                                assert(0 <= ci < si + 1 && cfgs[ci].ty@ == nm && !has_src(
                                    self.sources@,
                                    nm,
                                ));
                            }
                            if exists|ci: int|
                                0 <= ci < si + 1 && (#[trigger] cfgs[ci]).ty@ == nm && !has_src(
                                    self.sources@,
                                    nm,
                                ) {
                                let ci = choose|ci: int|
                                    0 <= ci < si + 1 && (#[trigger] cfgs[ci]).ty@ == nm
                                        && !has_src(self.sources@, nm);
                                assert(ci < si);
                                assert(errs_unknown_source(errors@, nm));
                            }
                        }
                    }
                },
            }
            si = si + 1;
        }
        proof {
            lemma_loaded_upto_all(*self, ss, cfgs);
            lemma_ua_all(*self, ss, cfgs);
            lemma_ui_all(*self, ss, cfgs);
            lemma_ite_all(*self, ss, cfgs);
        }
        (bindings, errors)
    }

    /// Find the vocabulary entry of `sp` for `text`, if any.
    fn find_text(sp: &SourceSpec, text: &String) -> (r: Option<usize>)
        requires
            sp.wf(),
        ensures
            r is Some <==> vocab_has(*sp, text@),
            r matches Some(i) ==> i < sp.vocab@.len() && i as int == vocab_idx(*sp, text@)
                && sp.vocab@[i as int].text@ == text@,
    {
        let n = sp.vocab.len();
        let mut i: usize = 0;
        while i < n
            invariant
                i <= n,
                n == sp.vocab@.len(),
                sp.wf(),
                forall|j: int| 0 <= j < i ==> (#[trigger] sp.vocab@[j]).text@ != text@,
            decreases n - i,
        {
            if sp.vocab[i].text == *text {
                proof {
                    lemma_vocab_idx_unique(*sp, i as int, text@);
                }
                return Some(i);
            }
            i = i + 1;
        }
        proof {
            if vocab_has(*sp, text@) {
                let j = vocab_idx(*sp, text@);
                assert(sp.vocab@[j].text@ == text@);
            }
        }
        None
    }
}

/// True when the candidate tags include `want`.
fn tags_contain(tags: &Vec<TypeTag>, want: TypeTag) -> (r: bool)
    ensures
        r == tags@.contains(want),
{
    let n = tags.len();
    let mut i: usize = 0;
    while i < n
        invariant
            i <= n,
            n == tags@.len(),
            forall|j: int| 0 <= j < i ==> tags@[j] != want,
        decreases n - i,
    {
        if tags[i] == want {
            proof {
                assert(tags@.contains(want));
            }
            return true;
        }
        i = i + 1;
    }
    proof {
        if tags@.contains(want) {
            let j = choose|j: int| 0 <= j < tags@.len() && tags@[j] == want;
        }
    }
    false
}

/// Copy a list of candidate tags.
fn clone_tags(tags: &Vec<TypeTag>) -> (r: Vec<TypeTag>)
    ensures
        r@ == tags@,
{
    let n = tags.len();
    let mut r: Vec<TypeTag> = Vec::new();
    let mut i: usize = 0;
    while i < n
        invariant
            i <= n,
            n == tags@.len(),
            r@ == tags@.take(i as int),
        decreases n - i,
    {
        r.push(tags[i]);
        proof {
            assert(r@ =~= tags@.take(i as int + 1));
        }
        i = i + 1;
    }
    proof {
        assert(tags@.take(n as int) =~= tags@);
    }
    r
}

} // verus!
