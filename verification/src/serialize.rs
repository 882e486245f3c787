//! Writing events back to the wire format, and the round-trip law.
//!
//! An event is written as an `event:` line, an `id:` line, one `data:`
//! line per `LF`-separated data line, and the terminating empty line, each
//! with one space after the colon (which parsing strips again).  For
//! events the format can carry — no `retry`, no line terminators inside
//! field values, no NUL in the ID — parsing the written bytes yields the
//! events back exactly.

use vstd::prelude::*;
use vstd::utf8::valid_utf8;

use crate::event::{Event, EventShape};
use crate::event_stream::{
    add_line, append_bytes, dispatch_result, has_nul, init_builder, process_line, run,
    BuilderShape, OutItem, RunResult,
};
use crate::parser::{
    classify_line, data_name, event_name, field_name_of, find_terminator, first_index_of, id_name,
    lemma_find_terminator_at, lemma_first_index_none, lemma_first_index_props,
    lemma_first_index_some, validate_shape, FieldName, LineShape, ValidShape, COLON, SPACE,
};
use crate::{CR, LF};

verus! {

/// The event's data split at each `LF` into its data lines; an event with
/// empty data has the single empty line.
pub open spec fn split_lines(d: Seq<u8>) -> Seq<Seq<u8>>
    decreases d.len(),
    via split_lines_decreases
{
    match first_index_of(d, LF) {
        None => seq![d],
        Some(k) => seq![d.take(k)] + split_lines(d.skip(k + 1)),
    }
}

#[via_fn]
proof fn split_lines_decreases(d: Seq<u8>) {
    lemma_first_index_props(d, LF);
}

/// The lines rejoined, each followed by its `LF`: the shape of the
/// builder's data buffer after the lines are accumulated.
pub open spec fn join_nl(ls: Seq<Seq<u8>>) -> Seq<u8>
    decreases ls.len(),
{
    if ls.len() == 0 {
        Seq::empty()
    } else {
        ls.first() + seq![LF] + join_nl(ls.drop_first())
    }
}

/// Splitting and rejoining restores the data, with the one trailing `LF`
/// that dispatch removes.
pub proof fn lemma_split_join(d: Seq<u8>)
    ensures
        join_nl(split_lines(d)) == d + seq![LF],
    decreases d.len(),
{
    lemma_first_index_props(d, LF);
    match first_index_of(d, LF) {
        None => {
            assert(seq![d].drop_first() =~= Seq::<Seq<u8>>::empty());
            assert(join_nl(Seq::<Seq<u8>>::empty()) =~= Seq::<u8>::empty());
            assert(join_nl(seq![d]) =~= d + seq![LF]);
        },
        Some(k) => {
            lemma_split_join(d.skip(k + 1));
            let s2 = split_lines(d.skip(k + 1));
            assert((seq![d.take(k)] + s2).first() == d.take(k));
            assert((seq![d.take(k)] + s2).drop_first() =~= s2);
            assert(join_nl(split_lines(d)) =~= d.take(k) + seq![LF] + (d.skip(k + 1) + seq![LF]));
            assert(d.take(k) + seq![LF] + (d.skip(k + 1) + seq![LF]) =~= d + seq![LF]);
        },
    }
}

/// One serialized field line: `name`, colon, one space, the value, `LF`.
pub open spec fn field_line(name: Seq<u8>, value: Seq<u8>) -> Seq<u8> {
    name + seq![COLON, SPACE] + value + seq![LF]
}

/// The serialized `data:` lines of an event.
pub open spec fn ser_data_lines(ls: Seq<Seq<u8>>) -> Seq<u8>
    decreases ls.len(),
{
    if ls.len() == 0 {
        Seq::empty()
    } else {
        field_line(data_name(), ls.first()) + ser_data_lines(ls.drop_first())
    }
}

/// The wire form of one event.
pub open spec fn serialize_event(e: EventShape) -> Seq<u8> {
    field_line(event_name(), e.event) + field_line(id_name(), e.id) + ser_data_lines(
        split_lines(e.data),
    ) + seq![LF]
}

/// The wire form of a list of events.
pub open spec fn serialize_events(es: Seq<EventShape>) -> Seq<u8>
    decreases es.len(),
{
    if es.len() == 0 {
        Seq::empty()
    } else {
        serialize_event(es.first()) + serialize_events(es.drop_first())
    }
}

/// A value free of line terminators, so one line can carry it.
pub open spec fn line_safe(v: Seq<u8>) -> bool {
    forall|j: int| 0 <= j < v.len() ==> #[trigger] v[j] != CR && v[j] != LF
}

/// An event the wire format can carry and give back: a nonempty event
/// type, no line terminators in the event type or ID, no NUL in the ID
/// (parsing would drop it), no `CR` in the data (its `LF`s separate data
/// lines), every data line valid UTF-8, and no `retry`.
pub open spec fn round_trippable(e: EventShape) -> bool {
    &&& e.event.len() > 0
    &&& line_safe(e.event)
    &&& valid_utf8(e.event)
    &&& line_safe(e.id)
    &&& !has_nul(e.id)
    &&& valid_utf8(e.id)
    &&& (forall|j: int| 0 <= j < e.data.len() ==> #[trigger] e.data[j] != CR)
    &&& (forall|i: int|
        0 <= i < split_lines(e.data).len() ==> valid_utf8(#[trigger] split_lines(e.data)[i]))
    &&& e.retry is None
}

/// Data lines of `CR`-free data are free of line terminators.
proof fn lemma_split_lines_safe(d: Seq<u8>)
    requires
        forall|j: int| 0 <= j < d.len() ==> #[trigger] d[j] != CR,
    ensures
        forall|i: int| 0 <= i < split_lines(d).len() ==> line_safe(#[trigger] split_lines(d)[i]),
    decreases d.len(),
{
    lemma_first_index_props(d, LF);
    match first_index_of(d, LF) {
        None => {
            assert(line_safe(d));
        },
        Some(k) => {
            lemma_split_lines_safe(d.skip(k + 1));
            assert(line_safe(d.take(k)));
            assert forall|i: int| 0 <= i < split_lines(d).len() implies line_safe(
                #[trigger] split_lines(d)[i],
            ) by {
                if i > 0 {
                    assert(split_lines(d)[i] == split_lines(d.skip(k + 1))[i - 1]);
                }
            }
        },
    }
}

/// A fresh builder, as dispatch leaves it: everything but the sticky ID
/// reset.
pub open spec fn fresh_with_id(id: Seq<u8>) -> BuilderShape {
    BuilderShape {
        event: Seq::empty(),
        id,
        data: Seq::empty(),
        retry: None,
        is_complete: false,
    }
}

/// Parsing `l ++ LF ++ rest` takes `l` as the first line when `l` holds no
/// terminator bytes.
proof fn lemma_line_front(l: Seq<u8>, rest: Seq<u8>)
    requires
        line_safe(l),
    ensures
        find_terminator(l + seq![LF] + rest) == Some((l.len() as int, l.len() as int + 1)),
        (l + seq![LF] + rest).take(l.len() as int) == l,
        (l + seq![LF] + rest).skip(l.len() as int + 1) == rest,
{
    let w = l + seq![LF] + rest;
    assert(w[l.len() as int] == LF);
    assert forall|j: int| 0 <= j < l.len() implies w[j] != CR && w[j] != LF by {
        assert(w[j] == l[j]);
    }
    lemma_find_terminator_at(w, l.len() as int);
    assert(w.take(l.len() as int) =~= l);
    assert(w.skip(l.len() as int + 1) =~= rest);
}

/// Running the parser over one serialized field line applies exactly that
/// field to the builder and emits nothing.
proof fn lemma_run_field_line(name: Seq<u8>, v: Seq<u8>, rest: Seq<u8>, b: BuilderShape)
    requires
        !b.is_complete,
        name.len() > 0,
        forall|j: int| 0 <= j < name.len() ==> #[trigger] name[j] != COLON && name[j] != CR
            && name[j] != LF,
        line_safe(v),
        valid_utf8(v),
    ensures
        ({
            let b1 = add_line(b, ValidShape::Field { name: field_name_of(name), value: Some(v) });
            &&& run(field_line(name, v) + rest, b) == run(rest, b1)
            &&& !b1.is_complete
        }),
{
    let l = name + seq![COLON, SPACE] + v;
    assert(field_line(name, v) + rest =~= l + seq![LF] + rest);
    assert forall|j: int| 0 <= j < l.len() implies l[j] != CR && l[j] != LF by {
        if j < name.len() {
            assert(l[j] == name[j]);
        } else if j >= name.len() + 2 {
            assert(l[j] == v[j - name.len() - 2]);
        }
    }
    lemma_line_front(l, rest);
    assert(l[name.len() as int] == COLON);
    assert forall|j: int| 0 <= j < name.len() implies l[j] != COLON by {
        assert(l[j] == name[j]);
    }
    lemma_first_index_some(l, COLON, name.len() as int);
    assert(l.take(name.len() as int) =~= name);
    assert(l.skip(name.len() as int + 1) =~= seq![SPACE] + v);
    assert((seq![SPACE] + v).skip(1) =~= v);
    assert(classify_line(l) == LineShape::Field { name: name, value: Some(v) });
    let vl = ValidShape::Field { name: field_name_of(name), value: Some(v) };
    assert(validate_shape(classify_line(l)) == Ok::<ValidShape, int>(vl));
    let b1 = add_line(b, vl);
    assert(process_line(b, l) == (b1, None::<OutItem>));
}

/// Running the parser over the serialized data lines appends exactly those
/// lines, each with its `LF`, to the data buffer.
proof fn lemma_run_data_lines(ls: Seq<Seq<u8>>, rest: Seq<u8>, b: BuilderShape)
    requires
        !b.is_complete,
        forall|i: int| 0 <= i < ls.len() ==> line_safe(#[trigger] ls[i]) && valid_utf8(ls[i]),
    ensures
        run(ser_data_lines(ls) + rest, b) == run(
            rest,
            BuilderShape { data: b.data + join_nl(ls), ..b },
        ),
    decreases ls.len(),
{
    if ls.len() == 0 {
        assert(ser_data_lines(ls) + rest =~= rest);
        assert(BuilderShape { data: b.data + join_nl(ls), ..b } =~= b);
    } else {
        assert(ser_data_lines(ls) + rest =~= field_line(data_name(), ls.first()) + (ser_data_lines(
            ls.drop_first(),
        ) + rest));
        lemma_run_field_line(
            data_name(),
            ls.first(),
            ser_data_lines(ls.drop_first()) + rest,
            b,
        );
        let b1 = add_line(
            b,
            ValidShape::Field { name: FieldName::Data, value: Some(ls.first()) },
        );
        assert(field_name_of(data_name()) == FieldName::Data);
        lemma_run_data_lines(ls.drop_first(), rest, b1);
        assert(BuilderShape { data: b1.data + join_nl(ls.drop_first()), ..b1 } =~= BuilderShape {
            data: b.data + join_nl(ls),
            ..b
        }) by {
            assert(b1.data + join_nl(ls.drop_first()) =~= (b.data + ls.first() + seq![LF])
                + join_nl(ls.drop_first()));
            assert((b.data + ls.first() + seq![LF]) + join_nl(ls.drop_first()) =~= b.data + (
            ls.first() + seq![LF] + join_nl(ls.drop_first())));
        }
    }
}

/// Parsing one serialized event from a fresh builder emits exactly that
/// event and leaves the builder fresh with the event's ID sticky.
proof fn lemma_parse_one(e: EventShape, rest: Seq<u8>, b: BuilderShape)
    requires
        round_trippable(e),
        b == fresh_with_id(b.id),
    ensures
        ({
            let r = run(rest, fresh_with_id(e.id));
            run(serialize_event(e) + rest, b) == RunResult {
                items: seq![OutItem::Event(e)] + r.items,
                rest: r.rest,
                builder: r.builder,
            }
        }),
{
    let ls = split_lines(e.data);
    lemma_split_lines_safe(e.data);
    let tail1 = field_line(id_name(), e.id) + ser_data_lines(ls) + seq![LF] + rest;
    assert(serialize_event(e) + rest =~= field_line(event_name(), e.event) + tail1);
    lemma_run_field_line(event_name(), e.event, tail1, b);
    assert(field_name_of(event_name()) == FieldName::Event);
    let b1 = add_line(b, ValidShape::Field { name: FieldName::Event, value: Some(e.event) });
    let tail2 = ser_data_lines(ls) + seq![LF] + rest;
    assert(tail1 =~= field_line(id_name(), e.id) + tail2);
    assert(field_name_of(id_name()) == FieldName::Id);
    lemma_run_field_line(id_name(), e.id, tail2, b1);
    let b2 = add_line(b1, ValidShape::Field { name: FieldName::Id, value: Some(e.id) });
    let tail3 = seq![LF] + rest;
    assert(tail2 =~= ser_data_lines(ls) + tail3);
    lemma_run_data_lines(ls, tail3, b2);
    let b3 = BuilderShape { data: b2.data + join_nl(ls), ..b2 };
    lemma_split_join(e.data);
    assert(b3.data =~= e.data + seq![LF]);
    // the empty line: complete and dispatch
    assert(find_terminator(tail3) == Some((0int, 1int)));
    assert(tail3.take(0) =~= Seq::<u8>::empty());
    assert(tail3.skip(1) =~= rest);
    assert(classify_line(Seq::<u8>::empty()) == LineShape::Empty);
    let b4 = add_line(b3, ValidShape::Empty);
    assert(b4.is_complete);
    assert(b4.data.last() == LF);
    assert(b4.data.drop_last() =~= e.data);
    let d = dispatch_result(b4);
    assert(d.0 =~= fresh_with_id(e.id));
    assert(d.1->Some_0 =~= e);
    assert(process_line(b3, Seq::<u8>::empty()) == (d.0, Some(OutItem::Event(e))));
    let r = run(rest, fresh_with_id(e.id));
    assert(run(tail3, b3) == RunResult {
        items: seq![OutItem::Event(e)] + r.items,
        rest: r.rest,
        builder: r.builder,
    });
}

/// Round trip from any fresh builder, by induction over the list.
proof fn lemma_round_trip_from(events: Seq<EventShape>, b: BuilderShape)
    requires
        forall|i: int| 0 <= i < events.len() ==> round_trippable(#[trigger] events[i]),
        b == fresh_with_id(b.id),
    ensures
        ({
            let r = run(serialize_events(events), b);
            &&& r.items == events.map_values(|e: EventShape| OutItem::Event(e))
            &&& r.rest == Seq::<u8>::empty()
        }),
    decreases events.len(),
{
    if events.len() == 0 {
        assert(serialize_events(events) =~= Seq::<u8>::empty());
        assert(run(Seq::empty(), b).items =~= events.map_values(
            |e: EventShape| OutItem::Event(e),
        ));
    } else {
        let e0 = events.first();
        let tail = events.drop_first();
        assert(round_trippable(e0));
        assert forall|i: int| 0 <= i < tail.len() implies round_trippable(#[trigger] tail[i]) by {
            assert(tail[i] == events[i + 1]);
        }
        assert(serialize_events(events) =~= serialize_event(e0) + serialize_events(tail));
        lemma_parse_one(e0, serialize_events(tail), b);
        let b1 = fresh_with_id(e0.id);
        assert(b1 == fresh_with_id(b1.id));
        lemma_round_trip_from(tail, b1);
        assert(seq![OutItem::Event(e0)] + tail.map_values(|e: EventShape| OutItem::Event(e)) =~=
            events.map_values(|e: EventShape| OutItem::Event(e)));
    }
}

/// Round trip: serializing a list of events the wire format can carry and
/// parsing the bytes back yields exactly that list of events, with nothing
/// left over.
pub proof fn lemma_round_trip(events: Seq<EventShape>)
    requires
        forall|i: int| 0 <= i < events.len() ==> round_trippable(#[trigger] events[i]),
    ensures
        ({
            let r = run(serialize_events(events), init_builder());
            &&& r.items == events.map_values(|e: EventShape| OutItem::Event(e))
            &&& r.rest == Seq::<u8>::empty()
        }),
{
    assert(init_builder() == fresh_with_id(init_builder().id));
    lemma_round_trip_from(events, init_builder());
}

/// A nonempty serialized list is nonempty bytes ending in the final `LF`.
proof fn lemma_serialize_events_last(events: Seq<EventShape>)
    requires
        events.len() > 0,
    ensures
        serialize_events(events).len() > 0,
        serialize_events(events).last() == LF,
    decreases events.len(),
{
    let head = serialize_event(events.first());
    let tail = serialize_events(events.drop_first());
    assert((field_line(event_name(), events.first().event) + field_line(
        id_name(),
        events.first().id,
    ) + ser_data_lines(split_lines(events.first().data)) + seq![LF]).last() == LF);
    if events.drop_first().len() > 0 {
        lemma_serialize_events_last(events.drop_first());
        assert((head + tail).last() == tail.last());
    } else {
        assert(tail =~= Seq::<u8>::empty());
        assert((head + tail).last() == head.last());
    }
}

/// Round trip through the whole stream semantics: the serialized bytes
/// open with no byte-order mark and end with no lone `CR`, so a stream
/// over them emits exactly the events.
pub proof fn lemma_round_trip_stream(events: Seq<EventShape>)
    requires
        forall|i: int| 0 <= i < events.len() ==> round_trippable(#[trigger] events[i]),
    ensures
        crate::event_stream::stream_items(serialize_events(events)) == events.map_values(
            |e: EventShape| OutItem::Event(e),
        ),
{
    lemma_round_trip(events);
    let w = serialize_events(events);
    if events.len() == 0 {
        assert(w =~= Seq::<u8>::empty());
        assert(crate::event_stream::after_bom(w) == w);
        assert(crate::event_stream::committed(w) == w);
    } else {
        lemma_serialize_events_last(events);
        assert(w[0] == 101) by {
            assert(w[0] == serialize_event(events.first())[0]);
            assert(serialize_event(events.first())[0] == event_name()[0]);
        }
        if w.len() >= 3 && w.take(3) == crate::event_stream::bom_bytes() {
            assert(w.take(3)[0] == w[0]);
            assert(false);
        }
        assert(crate::event_stream::after_bom(w) == w);
        assert(crate::event_stream::committed(w) == w);
    }
}

/// Writes one event in wire form: its `event:` line, its `id:` line, one
/// `data:` line per data line, and the terminating empty line.
pub fn write_event(e: &Event) -> (r: Vec<u8>)
    ensures
        r@ == serialize_event(e@),
{
    let mut out: Vec<u8> = Vec::new();
    out.push(101);
    out.push(118);
    out.push(101);
    out.push(110);
    out.push(116);
    out.push(COLON);
    out.push(SPACE);
    append_bytes(&mut out, e.event.as_str().as_bytes());
    out.push(LF);
    proof {
        assert(out@ =~= field_line(event_name(), e@.event));
    }
    out.push(105);
    out.push(100);
    out.push(COLON);
    out.push(SPACE);
    append_bytes(&mut out, e.id.as_str().as_bytes());
    out.push(LF);
    proof {
        assert(out@ =~= field_line(event_name(), e@.event) + field_line(id_name(), e@.id));
    }
    write_data_lines(&mut out, e.data.as_str().as_bytes());
    out.push(LF);
    proof {
        assert(out@ =~= serialize_event(e@));
    }
    out
}

/// Writes one `data:` line per `LF`-separated line of `d`.
fn write_data_lines(out: &mut Vec<u8>, d: &[u8])
    ensures
        final(out)@ == old(out)@ + ser_data_lines(split_lines(d@)),
    decreases d@.len(),
{
    proof {
        lemma_first_index_props(d@, LF);
    }
    let n = d.len();
    match memchr::memchr(LF, d) {
        None => {
            proof {
                lemma_first_index_none(d@, LF);
            }
            out.push(100);
            out.push(97);
            out.push(116);
            out.push(97);
            out.push(COLON);
            out.push(SPACE);
            append_bytes(out, d);
            out.push(LF);
            proof {
                assert(seq![d@].drop_first() =~= Seq::<Seq<u8>>::empty());
                assert(ser_data_lines(Seq::<Seq<u8>>::empty()) =~= Seq::<u8>::empty());
                assert(ser_data_lines(seq![d@]) =~= field_line(data_name(), d@));
                assert(out@ =~= old(out)@ + ser_data_lines(split_lines(d@)));
            }
        },
        Some(k) => {
            proof {
                lemma_first_index_some(d@, LF, k as int);
            }
            out.push(100);
            out.push(97);
            out.push(116);
            out.push(97);
            out.push(COLON);
            out.push(SPACE);
            let seg = vstd::slice::slice_subrange(d, 0, k);
            append_bytes(out, seg);
            out.push(LF);
            let ghost mid = out@;
            let rest = vstd::slice::slice_subrange(d, k + 1, n);
            write_data_lines(out, rest);
            proof {
                assert(seg@ =~= d@.take(k as int));
                assert(rest@ =~= d@.skip(k as int + 1));
                assert(mid =~= old(out)@ + field_line(data_name(), d@.take(k as int)));
                let s2 = split_lines(d@.skip(k as int + 1));
                assert((seq![d@.take(k as int)] + s2).first() == d@.take(k as int));
                assert((seq![d@.take(k as int)] + s2).drop_first() =~= s2);
                assert(ser_data_lines(split_lines(d@)) =~= field_line(
                    data_name(),
                    d@.take(k as int),
                ) + ser_data_lines(s2));
                assert(out@ =~= old(out)@ + ser_data_lines(split_lines(d@)));
            }
        },
    }
}

} // verus!
