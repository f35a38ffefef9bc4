//! Laws of the routing and state machinery, stated and proved once over
//! the models that the public contracts use.

use vstd::prelude::*;

use crate::bindings::Bindings;
use crate::config::config_mentions;
use crate::config::sources_wf;
use crate::config::SourceConfig;
use crate::factory::dpad_loadable;
use crate::factory::dpad_loaded;
use crate::factory::has_src;
use crate::factory::loaded_binds;
use crate::factory::loaded_filters;
use crate::factory::pair_loads;
use crate::factory::shadowed;
use crate::factory::src_idx;
use crate::factory::vocab_has;
use crate::factory::vocab_tags;
use crate::factory::BindingsFactory;
use crate::graph::dpad_source_name;
use crate::graph::DPad;
use crate::graph::Filter;
use crate::graph::FilterConfig;
use crate::input::InputModel;
use crate::seat::push_model;
use crate::seat::push_ok;
use crate::seat::CellModel;
use crate::session::Session;
use crate::types::ActionId;
use crate::types::Value;

verus! {

/// True when the factory can parse input `im`: its source is registered,
/// its textual form is in that source's vocabulary, and its payload type
/// is among the candidates for that text.
pub open spec fn covers(f: BindingsFactory, im: InputModel) -> bool {
    &&& has_src(f.sources@, im.source)
    &&& vocab_has(f.sources@[src_idx(f.sources@, im.source)], im.text)
    &&& vocab_tags(f.sources@[src_idx(f.sources@, im.source)], im.text).contains(im.tag)
}

/// Binding an input to an action and then handling a payload of the
/// input's type delivers the payload to the action's cell: afterwards the
/// latest value is the payload, observed persistently by `get` until
/// overwritten, and the pending queue holds exactly one copy of it, so
/// `poll` observes it exactly once. Stated over `handle`'s delivery model
/// for an input bound to the one action, with that action's pending queue
/// drained and no filter consuming it; an action bound twice to the
/// input, or rewritten by a filter that consumes it, is delivered more
/// than one value, so those inputs are left out.
pub proof fn lemma_bind_handle_observe(
    b: Bindings,
    im: InputModel,
    a: ActionId,
    v: Value,
    m: Map<int, CellModel>,
)
    requires
        b.wf(),
        b.bound(im) == seq![a],
        b.filter_for(a) is None,
        v.spec_tag() == im.tag,
        b.seat_ok(m),
        m.dom().contains(a.0 as int) ==> m[a.0 as int].queue.len() == 0,
    ensures
        ({
            let after = b.deliver_model(m, b.bound(im), v);
            &&& after.dom().contains(a.0 as int)
            &&& after[a.0 as int].latest == v
            &&& after[a.0 as int].queue == seq![v]
        }),
{
    let m1 = push_model(m, a, v);
    assert(seq![a].last() == a);
    assert(seq![a].drop_last() =~= Seq::<ActionId>::empty());
    assert(b.worklist_model(m1, seq![a].drop_last(), b.filters@.len() as nat) == m1);
    assert(b.worklist_model(m1, seq![a], b.filters@.len() as nat) == m1);
    assert(b.bound(im)[0] == a);
    assert(b.bound(im).drop_first() =~= Seq::<ActionId>::empty());
    assert(b.deliver_model(m1, Seq::<ActionId>::empty(), v) == m1);
    assert(b.deliver_model(m, b.bound(im), v) == m1);
    assert(m1[a.0 as int].latest == v);
    if m.dom().contains(a.0 as int) {
        assert(m[a.0 as int].queue =~= Seq::<Value>::empty());
        assert(m1[a.0 as int].queue =~= seq![v]);
    } else {
        assert(m1[a.0 as int].queue == seq![v]);
    }
}

/// Queued payloads keep the order of the pushes that produced them: two
/// pushes to one action append the two values in push order to the pending
/// queue, oldest first, which is the order `poll` consumes. Draining the
/// queue to empty makes `poll` return nothing until the next push.
pub proof fn lemma_push_fifo(m: Map<int, CellModel>, a: ActionId, v1: Value, v2: Value)
    requires
        push_ok(m, a, v1),
        v1.spec_tag() == v2.spec_tag(),
    ensures
        ({
            let q0 = if m.dom().contains(a.0 as int) {
                m[a.0 as int].queue
            } else {
                Seq::<Value>::empty()
            };
            let after = push_model(push_model(m, a, v1), a, v2);
            &&& after[a.0 as int].queue == q0 + seq![v1, v2]
            &&& after[a.0 as int].latest == v2
        }),
{
    let m1 = push_model(m, a, v1);
    let m2 = push_model(m1, a, v2);
    let q0 = if m.dom().contains(a.0 as int) {
        m[a.0 as int].queue
    } else {
        Seq::<Value>::empty()
    };
    assert(m1[a.0 as int].queue =~= q0.push(v1));
    assert(m2[a.0 as int].queue =~= q0 + seq![v1, v2]);
}

/// True when a directional-pad filter's actions carry the canonical
/// derived names in `ss`: the sources are named by suffixing the target's
/// name with the four directions. Filters built by [`DPad::new`] or
/// resolved by [`DPad::load`] are canonical by construction.
pub open spec fn dpad_canonical(ss: Session, d: DPad) -> bool {
    &&& ss.defines(d.target.id)
    &&& ss.defines(d.up.id)
    &&& ss.defines(d.left.id)
    &&& ss.defines(d.down.id)
    &&& ss.defines(d.right.id)
    &&& ss@[d.up.id.0 as int].name == dpad_source_name(ss@[d.target.id.0 as int].name, 0)
    &&& ss@[d.left.id.0 as int].name == dpad_source_name(ss@[d.target.id.0 as int].name, 1)
    &&& ss@[d.down.id.0 as int].name == dpad_source_name(ss@[d.target.id.0 as int].name, 2)
    &&& ss@[d.right.id.0 as int].name == dpad_source_name(ss@[d.target.id.0 as int].name, 3)
}

/// True when every filter of the graph is canonically named in `ss`.
pub open spec fn filters_canonical(ss: Session, filters: Seq<Filter>) -> bool {
    forall|i: int|
        0 <= i < filters.len() ==> match #[trigger] filters[i] {
            Filter::DPad(d) => dpad_canonical(ss, d),
        }
}

/// Round trip of the filter graph: serialized filter entries that match a
/// graph of canonically named filters, loaded through a factory with the
/// filter kind registered against the same session, resolve back to
/// exactly the same filters, in order — the same source and target wiring.
pub proof fn lemma_save_load_round_trip_filters(
    b: Bindings,
    session: Session,
    f: BindingsFactory,
    cfg_filters: Seq<FilterConfig>,
)
    requires
        b.wf(),
        session.wf(),
        b.session_matches(session),
        f.dpad_filter,
        filters_canonical(session, b.filters@),
        cfg_filters.len() == b.filters@.len(),
        forall|i: int|
            0 <= i < b.filters@.len() ==> (#[trigger] cfg_filters[i]).ty@
                == b.filters@[i].spec_kind() && cfg_filters[i].targets@.len()
                == b.filters@[i].spec_target_names(session).len() && (forall|ti: int|
                0 <= ti < cfg_filters[i].targets@.len() ==> (#[trigger] cfg_filters[i].targets@[ti])@
                    == b.filters@[i].spec_target_names(session)[ti]),
    ensures
        loaded_filters(f, session, cfg_filters, cfg_filters.len() as int) == b.filters@,
{
    lemma_round_trip_filters_prefix(b, session, f, cfg_filters, cfg_filters.len() as int);
    assert(b.filters@.take(b.filters@.len() as int) =~= b.filters@);
}

/// Each prefix of the serialized filter entries loads back to the same
/// prefix of the filter graph.
proof fn lemma_round_trip_filters_prefix(
    b: Bindings,
    session: Session,
    f: BindingsFactory,
    cfg_filters: Seq<FilterConfig>,
    k: int,
)
    requires
        b.wf(),
        session.wf(),
        b.session_matches(session),
        f.dpad_filter,
        filters_canonical(session, b.filters@),
        cfg_filters.len() == b.filters@.len(),
        0 <= k <= cfg_filters.len(),
        forall|i: int|
            0 <= i < b.filters@.len() ==> (#[trigger] cfg_filters[i]).ty@
                == b.filters@[i].spec_kind() && cfg_filters[i].targets@.len()
                == b.filters@[i].spec_target_names(session).len() && (forall|ti: int|
                0 <= ti < cfg_filters[i].targets@.len() ==> (#[trigger] cfg_filters[i].targets@[ti])@
                    == b.filters@[i].spec_target_names(session)[ti]),
    ensures
        loaded_filters(f, session, cfg_filters, k) == b.filters@.take(k),
    decreases k,
{
    if k <= 0 {
        assert(b.filters@.take(0) =~= Seq::<Filter>::empty());
    } else {
        lemma_round_trip_filters_prefix(b, session, f, cfg_filters, k - 1);
        let flt = b.filters@[k - 1];
        match flt {
            Filter::DPad(d) => {
                assert(dpad_canonical(session, d));
                assert(d.wf() && flt.types_ok(b.type_table()));
                let base = session@[d.target.id.0 as int].name;
                assert(cfg_filters[k - 1].targets@[0]@ == base);
                assert(cfg_filters[k - 1].targets@.len() == 1);
                crate::session::lemma_id_of_unique(session, d.target.id.0 as int, base);
                crate::session::lemma_id_of_unique(
                    session,
                    d.up.id.0 as int,
                    dpad_source_name(base, 0),
                );
                crate::session::lemma_id_of_unique(
                    session,
                    d.left.id.0 as int,
                    dpad_source_name(base, 1),
                );
                crate::session::lemma_id_of_unique(
                    session,
                    d.down.id.0 as int,
                    dpad_source_name(base, 2),
                );
                crate::session::lemma_id_of_unique(
                    session,
                    d.right.id.0 as int,
                    dpad_source_name(base, 3),
                );
                assert(session@[d.up.id.0 as int].tag == d.up.tag);
                assert(session@[d.left.id.0 as int].tag == d.left.tag);
                assert(session@[d.down.id.0 as int].tag == d.down.tag);
                assert(session@[d.right.id.0 as int].tag == d.right.tag);
                assert(session@[d.target.id.0 as int].tag == d.target.tag);
                assert(crate::graph::dpad_sources_ok(session, base)) by {
                    assert forall|k2: int|
                        0 <= k2 < 4 implies session.has_name(#[trigger] dpad_source_name(base, k2))
                        && session@[session.id_of(dpad_source_name(base, k2))].tag
                        == crate::types::TypeTag::Bool by {
                        if k2 == 0 {
                        } else if k2 == 1 {
                        } else if k2 == 2 {
                        } else {
                        }
                    }
                }
                assert(dpad_loadable(f, session, cfg_filters[k - 1]));
                assert(dpad_loaded(session, base) == d);
                assert(loaded_filters(f, session, cfg_filters, k) =~= b.filters@.take(k));
            },
        }
    }
}

/// Round trip: a serialized configuration that mentions exactly the
/// bindings of a routing table, loaded through a factory that can parse
/// every input the table binds, reproduces exactly the same input-to-
/// action mappings — irrespective of the order in which the configuration
/// declares them, since the relation ranges over all entries alike.
pub proof fn lemma_save_load_round_trip(
    b: Bindings,
    session: Session,
    f: BindingsFactory,
    cfg_sources: Seq<SourceConfig>,
)
    requires
        b.wf(),
        session.wf(),
        b.session_matches(session),
        f.wf(),
        sources_wf(cfg_sources),
        forall|kind: Seq<char>, name: Seq<char>, text: Seq<char>|
            #[trigger] config_mentions(cfg_sources, kind, name, text) <==> b.binds_text(
                session,
                kind,
                name,
                text,
            ),
        forall|ri: int| 0 <= ri < b.rows@.len() ==> covers(f, (#[trigger] b.rows@[ri])@.input),
    ensures
        forall|im: InputModel, a: ActionId|
            #[trigger] loaded_binds(f, session, cfg_sources, im, a) <==> b.bound(im).contains(a),
{
    assert forall|im: InputModel, a: ActionId|
        #[trigger] loaded_binds(f, session, cfg_sources, im, a) <==> b.bound(im).contains(a) by {
        if loaded_binds(f, session, cfg_sources, im, a) {
            let (ci, bi, xi): (int, int, int) = choose|ci: int, bi: int, xi: int|
                #[trigger] pair_loads(f, session, cfg_sources, ci, bi, xi, im, a);
            let name = cfg_sources[ci].bindings@[bi].0@;
            assert(config_mentions(cfg_sources, im.source, name, im.text)) by {
                assert(crate::config::texts_contain(cfg_sources[ci].bindings@[bi].1@, im.text));
                assert(crate::config::src_mentions(cfg_sources[ci], name, im.text));
            }
            assert(b.binds_text(session, im.source, name, im.text));
            let (ri, k): (int, int) = choose|ri: int, k: int|
                0 <= ri < b.rows@.len() && 0 <= k < b.rows@[ri]@.actions.len()
                    && b.rows@[ri]@.input.source == im.source && b.rows@[ri]@.input.text == im.text
                    && 0 <= (#[trigger] b.rows@[ri]@.actions[k]).0 < session@.len()
                    && session@[b.rows@[ri]@.actions[k].0 as int].name == name;
            let a2 = b.rows@[ri]@.actions[k];
            crate::session::lemma_id_of_unique(session, a2.0 as int, name);
            assert(a2.0 as int == session.id_of(name));
            assert(a2.0 == a.0);
            assert(a2 == a);
            assert(b.rows@[ri]@.input.tag == b.type_table()[a.0 as int]);
            assert(b.type_table()[a.0 as int] == session@[a.0 as int].tag);
            assert(b.rows@[ri]@.input.tag == im.tag);
            assert(b.rows@[ri]@.input == im);
            crate::bindings::lemma_row_idx_unique(b, ri, im);
            assert(b.bound(im) == b.rows@[ri]@.actions);
            assert(b.bound(im).contains(a));
        }
        if b.bound(im).contains(a) {
            assert(b.has_row(im)) by {
                if !b.has_row(im) {
                    assert(b.bound(im) == Seq::<ActionId>::empty());
                }
            }
            let ri = b.row_idx(im);
            assert(b.rows@[ri]@.input == im);
            let k = choose|k: int|
                0 <= k < b.bound(im).len() && b.bound(im)[k] == a;
            assert(b.rows@[ri]@.actions[k] == a);
            assert(a.0 < b.type_table().len() && b.type_table()[a.0 as int] == im.tag);
            assert(a.0 < session@.len());
            assert(session@[a.0 as int].tag == im.tag);
            let name = session@[a.0 as int].name;
            assert(b.binds_text(session, im.source, name, im.text)) by {
                assert(0 <= (b.rows@[ri]@.actions[k]).0 < session@.len());
            }
            assert(config_mentions(cfg_sources, im.source, name, im.text));
            let si = choose|si: int|
                0 <= si < cfg_sources.len() && (#[trigger] cfg_sources[si]).ty@ == im.source
                    && crate::config::src_mentions(cfg_sources[si], name, im.text);
            let bi = choose|bi: int|
                0 <= bi < cfg_sources[si].bindings@.len() && (
                #[trigger] cfg_sources[si].bindings@[bi]).0@ == name
                    && crate::config::texts_contain(cfg_sources[si].bindings@[bi].1@, im.text);
            let xi = choose|xi: int|
                0 <= xi < cfg_sources[si].bindings@[bi].1@.len() && (
                #[trigger] cfg_sources[si].bindings@[bi].1@[xi])@ == im.text;
            assert(!shadowed(f, cfg_sources, si)) by {
                if shadowed(f, cfg_sources, si) {
                    let cj = choose|cj: int|
                        si < cj < cfg_sources.len() && (#[trigger] cfg_sources[cj]).ty@
                            == cfg_sources[si].ty@ && has_src(f.sources@, cfg_sources[cj].ty@);
                    assert(cfg_sources[si].ty@ != cfg_sources[cj].ty@);
                }
            }
            crate::session::lemma_id_of_unique(session, a.0 as int, name);
            assert(covers(f, im)) by {
                assert(b.rows@[ri]@.input == im);
            }
            assert(pair_loads(f, session, cfg_sources, si, bi, xi, im, a));
            assert(loaded_binds(f, session, cfg_sources, im, a));
        }
    }
}

} // verus!
