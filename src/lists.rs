//! The sections whose lines run up to the next header (Events, TimingPoints, HitObjects) and
//! the Colours section.
use vstd::prelude::*;
use crate::beatmap::{Colour, ColoursSection, Error, HitObject, TimingPoint};
use crate::fields::{
    colour_in, colour_result, collect, field_decodes, first_fault, hit_object_fault, hit_object_in,
    hit_object_is, lemma_first_fault_at, lemma_first_fault_none, lemma_record_ok, record_check,
    record_fault, record_kinds, reports, syntax_error, Fault, Record,
};
use crate::number::{all_digits, bool_of_chars, bool_text_value, decimal_of_chars, decimal_text_value, int_of_chars, int_text_value};
use crate::scanner::{header_name, is_header, ParseState};
use crate::sections::{holds_at, next_pair, pairs_end, pairs_of, same_text};
use crate::text::{split, split_chars, string_of, trim, trim_chars, views};

verus! {

/// The first index at or after `i` whose line is a section header (or the number of lines).
pub open spec fn body_end(lines: Seq<Seq<char>>, i: int) -> int
    decreases lines.len() - i,
{
    if i < 0 || i >= lines.len() {
        lines.len() as int
    } else if header_name(lines[i]) is Some {
        i
    } else {
        body_end(lines, i + 1)
    }
}

pub proof fn lemma_body_end_bounds(lines: Seq<Seq<char>>, i: int)
    requires
        0 <= i <= lines.len(),
    ensures
        i <= body_end(lines, i) <= lines.len(),
        forall|k: int| i <= k < body_end(lines, i) ==> header_name(#[trigger] lines[k]) is None,
    decreases lines.len() - i,
{
    if i < lines.len() && header_name(lines[i]) is None {
        lemma_body_end_bounds(lines, i + 1);
    }
}

/// Reads the next line when it is not a header.
fn next_body_line(state: &mut ParseState, Ghost(from): Ghost<int>) -> (r: Option<usize>)
    requires
        old(state).wf(),
        0 <= from <= old(state)@.next,
        body_end(old(state)@.lines, from) == body_end(old(state)@.lines, old(state)@.next as int),
    ensures
        final(state).wf(),
        final(state)@.lines == old(state)@.lines,
        match r {
            Some(i) => {
                &&& i == old(state)@.next < old(state)@.lines.len()
                &&& final(state)@.next == i + 1
                &&& header_name(old(state)@.lines[i as int]) is None
                &&& body_end(old(state)@.lines, from) == body_end(old(state)@.lines, i + 1)
            },
            None => holds_at(final(state)@, body_end(old(state)@.lines, from)) && body_end(
                old(state)@.lines,
                from,
            ) == old(state)@.next,
        },
{
    let ghost lines = state@.lines;
    let ghost n0 = state@.next as int;
    match state.advance() {
        Some(i) => {
            if is_header(state.line(i).as_slice()) {
                assert(body_end(lines, n0) == n0);
                None
            } else {
                assert(body_end(lines, n0) == body_end(lines, n0 + 1));
                Some(i)
            }
        },
        None => {
            assert(body_end(lines, n0) == lines.len());
            None
        },
    }
}

/// Passes over the lines after the held header, up to the next header.
pub fn skip_section(state: &mut ParseState)
    requires
        old(state).wf(),
        old(state)@.current is Some,
    ensures
        final(state).wf(),
        final(state)@.lines == old(state)@.lines,
        holds_at(final(state)@, body_end(old(state)@.lines, old(state)@.next as int)),
{
    let ghost lines = state@.lines;
    let ghost from = state@.next as int;
    loop
        invariant
            state.wf(),
            state@.lines == lines,
            lines == old(state)@.lines,
            from == old(state)@.next,
            0 <= from <= state@.next,
            body_end(lines, from) == body_end(lines, state@.next as int),
        decreases lines.len() - state@.next,
    {
        match next_body_line(state, Ghost(from)) {
            None => {
                return;
            },
            Some(_) => {},
        }
    }
}

/// The `i`-th comma-separated piece of a tempo-marker line, trimmed.
pub open spec fn marker_field(t: Seq<char>, i: int) -> Seq<char> {
    trim(split(t, ',')[i])
}

/// The first fault of a tempo-marker line, read field by field.
pub open spec fn marker_fault(t: Seq<char>) -> Option<Fault> {
    record_fault(split(t, ','), Record::Marker)
}

/// Whether a tempo-marker line has its eight fields, each of which decodes.
pub open spec fn marker_decodes(t: Seq<char>) -> bool {
    marker_fault(t) is None
}

/// The faults of lines `from..to`, each read as a tempo marker.
pub open spec fn marker_faults(lines: Seq<Seq<char>>, from: int, to: int) -> Seq<Option<Fault>> {
    lines.subrange(from, to).map_values(|l: Seq<char>| marker_fault(l))
}

/// The faults of lines `from..to`, each read as a chart element.
pub open spec fn object_faults(lines: Seq<Seq<char>>, from: int, to: int) -> Seq<Option<Fault>> {
    lines.subrange(from, to).map_values(|l: Seq<char>| hit_object_fault(l))
}

/// Whether `p` is the marker of the line `t`: offset, beat length, meter, sample set, sample
/// index, volume, inherited flag and kiai flag.
pub open spec fn marker_is(p: TimingPoint, t: Seq<char>) -> bool {
    &&& p.offset == int_text_value(marker_field(t, 0))->0
    &&& p.ms_per_beat == decimal_text_value(marker_field(t, 1))->0
    &&& p.meter == int_text_value(marker_field(t, 2))->0
    &&& p.sample_set@ == marker_field(t, 3)
    &&& p.sample_index == int_text_value(marker_field(t, 4))->0
    &&& p.volume == int_text_value(marker_field(t, 5))->0
    &&& p.inherited == bool_text_value(marker_field(t, 6))->0
    &&& p.kiai_mode == bool_text_value(marker_field(t, 7))->0
}

fn marker_piece(ps: &Vec<Vec<char>>, i: usize) -> (r: Vec<char>)
    requires
        i < ps@.len(),
    ensures
        r@ == trim(views(ps@)[i as int]),
{
    assert(ps@[i as int]@ == views(ps@)[i as int]);
    trim_chars(ps[i].as_slice())
}

/// Decodes one tempo-marker line; the first field that is missing or does not decode gives
/// the error.
pub fn parse_timing_point(t: &[char]) -> (r: Result<TimingPoint, Error>)
    ensures
        r is Ok <==> marker_decodes(t@),
        r matches Ok(p) ==> marker_is(p, t@),
        r matches Err(e) ==> (marker_fault(t@) matches Some(f) && reports(e, f)),
{
    let ps = split_chars(t, ',');
    let ghost pv = views(ps@);
    record_check(&ps, Record::Marker)?;
    proof {
        lemma_record_ok(pv, Record::Marker, 0);
        assert(field_decodes(record_kinds(Record::Marker)[0], trim(pv[0])));
        assert(field_decodes(record_kinds(Record::Marker)[1], trim(pv[1])));
        assert(field_decodes(record_kinds(Record::Marker)[2], trim(pv[2])));
        assert(field_decodes(record_kinds(Record::Marker)[4], trim(pv[4])));
        assert(field_decodes(record_kinds(Record::Marker)[5], trim(pv[5])));
        assert(field_decodes(record_kinds(Record::Marker)[6], trim(pv[6])));
        assert(field_decodes(record_kinds(Record::Marker)[7], trim(pv[7])));
    }
    let offset = int_of_chars(marker_piece(&ps, 0).as_slice());
    let ms_per_beat = decimal_of_chars(marker_piece(&ps, 1).as_slice());
    let meter = int_of_chars(marker_piece(&ps, 2).as_slice());
    let sample_set = marker_piece(&ps, 3);
    let sample_index = int_of_chars(marker_piece(&ps, 4).as_slice());
    let volume = int_of_chars(marker_piece(&ps, 5).as_slice());
    let inherited = bool_of_chars(marker_piece(&ps, 6).as_slice());
    let kiai_mode = bool_of_chars(marker_piece(&ps, 7).as_slice());
    match (offset, ms_per_beat, meter, sample_index, volume, inherited, kiai_mode) {
        (Some(offset), Some(ms_per_beat), Some(meter), Some(sample_index), Some(volume), Some(inherited), Some(kiai_mode)) => {
            Ok(
                TimingPoint {
                    offset,
                    ms_per_beat,
                    meter,
                    sample_set: string_of(sample_set.as_slice()),
                    sample_index,
                    volume,
                    inherited,
                    kiai_mode,
                },
            )
        },
        _ => Err(syntax_error("Unable to parse tempo marker")),
    }
}

/// The tempo markers of the lines after the held header, up to the next header.
pub fn parse_timing_points(state: &mut ParseState) -> (r: Result<Vec<TimingPoint>, Error>)
    requires
        old(state).wf(),
        old(state)@.current is Some,
    ensures
        final(state).wf(),
        final(state)@.lines == old(state)@.lines,
        ({
            let lines = old(state)@.lines;
            let from = old(state)@.next as int;
            let q = body_end(lines, from);
            &&& r is Ok <==> forall|i: int| from <= i < q ==> marker_decodes(#[trigger] lines[i])
            &&& r matches Ok(v) ==> v@.len() == q - from && holds_at(final(state)@, q) && forall|
                i: int,
            | 0 <= i < v@.len() ==> marker_is(#[trigger] v@[i], lines[from + i])
            &&& r is Ok ==> first_fault(marker_faults(lines, from, q)) is None
            &&& r matches Err(e) ==> (first_fault(marker_faults(lines, from, q)) matches Some(f)
                && reports(e, f))
        }),
{
    let ghost lines = state@.lines;
    let ghost from = state@.next as int;
    let mut out: Vec<TimingPoint> = Vec::new();
    loop
        invariant
            state.wf(),
            state@.lines == lines,
            lines == old(state)@.lines,
            from == old(state)@.next,
            0 <= from <= state@.next,
            body_end(lines, from) == body_end(lines, state@.next as int),
            out@.len() == state@.next - from,
            forall|i: int| from <= i < state@.next ==> marker_decodes(#[trigger] lines[i]),
            forall|i: int| 0 <= i < out@.len() ==> marker_is(#[trigger] out@[i], lines[from + i]),
        decreases lines.len() - state@.next,
    {
        match next_body_line(state, Ghost(from)) {
            None => {
                proof {
                    let q = body_end(lines, from);
                    let fs = marker_faults(lines, from, q);
                    assert forall|k: int| 0 <= k < fs.len() implies (#[trigger] fs[k]) is None by {
                        assert(fs[k] == marker_fault(lines[from + k]));
                        assert(marker_decodes(lines[from + k]));
                    }
                    lemma_first_fault_none(fs);
                }
                return Ok(out);
            },
            Some(i) => {
                match parse_timing_point(state.line(i).as_slice()) {
                    Ok(p) => {
                        out.push(p);
                    },
                    Err(e) => {
                        proof {
                            lemma_body_end_bounds(lines, (i + 1) as int);
                            let q = body_end(lines, from);
                            let fs = marker_faults(lines, from, q);
                            assert forall|k: int| 0 <= k < i - from implies (#[trigger] fs[k]) is None by {
                                assert(fs[k] == marker_fault(lines[from + k]));
                                assert(marker_decodes(lines[from + k]));
                            }
                            assert(fs[i - from] == marker_fault(lines[i as int]));
                            lemma_first_fault_at(fs, i - from);
                        }
                        return Err(e);
                    },
                }
            },
        }
    }
}

/// The chart elements of the lines after the held header, up to the next header; the first
/// line that does not decode gives the error.
pub fn parse_hit_objects(state: &mut ParseState) -> (r: Result<Vec<HitObject>, Error>)
    requires
        old(state).wf(),
        old(state)@.current is Some,
    ensures
        final(state).wf(),
        final(state)@.lines == old(state)@.lines,
        ({
            let lines = old(state)@.lines;
            let from = old(state)@.next as int;
            let q = body_end(lines, from);
            &&& r is Ok <==> forall|i: int|
                from <= i < q ==> hit_object_fault(#[trigger] lines[i]) is None
            &&& r matches Ok(v) ==> v@.len() == q - from && holds_at(final(state)@, q) && forall|
                i: int,
            | 0 <= i < v@.len() ==> hit_object_is(#[trigger] v@[i], lines[from + i])
            &&& r matches Err(e) ==> exists|i: int|
                from <= i < q && (hit_object_fault(#[trigger] lines[i]) matches Some(f) && reports(e, f))
                    && forall|k: int| from <= k < i ==> hit_object_fault(#[trigger] lines[k]) is None
            &&& r is Ok ==> first_fault(object_faults(lines, from, q)) is None
            &&& r matches Err(e) ==> (first_fault(object_faults(lines, from, q)) matches Some(f)
                && reports(e, f))
        }),
{
    let ghost lines = state@.lines;
    let ghost from = state@.next as int;
    let mut out: Vec<HitObject> = Vec::new();
    loop
        invariant
            state.wf(),
            state@.lines == lines,
            lines == old(state)@.lines,
            from == old(state)@.next,
            0 <= from <= state@.next,
            body_end(lines, from) == body_end(lines, state@.next as int),
            out@.len() == state@.next - from,
            forall|i: int| from <= i < state@.next ==> hit_object_fault(#[trigger] lines[i]) is None,
            forall|i: int| 0 <= i < out@.len() ==> hit_object_is(#[trigger] out@[i], lines[from + i]),
        decreases lines.len() - state@.next,
    {
        match next_body_line(state, Ghost(from)) {
            None => {
                proof {
                    let q = body_end(lines, from);
                    let fs = object_faults(lines, from, q);
                    assert forall|k: int| 0 <= k < fs.len() implies (#[trigger] fs[k]) is None by {
                        assert(fs[k] == hit_object_fault(lines[from + k]));
                    }
                    lemma_first_fault_none(fs);
                }
                return Ok(out);
            },
            Some(i) => {
                match hit_object_in(state.line(i).as_slice()) {
                    Ok(o) => {
                        out.push(o);
                    },
                    Err(e) => {
                        proof {
                            lemma_body_end_bounds(lines, (i + 1) as int);
                            assert(hit_object_fault(lines[i as int]) is Some);
                            let q = body_end(lines, from);
                            let fs = object_faults(lines, from, q);
                            assert forall|k: int| 0 <= k < i - from implies (#[trigger] fs[k]) is None by {
                                assert(fs[k] == hit_object_fault(lines[from + k]));
                            }
                            assert(fs[i - from] == hit_object_fault(lines[i as int]));
                            lemma_first_fault_at(fs, i - from);
                        }
                        return Err(e);
                    },
                }
            },
        }
    }
}

/// One line of the Colours section.
#[derive(Clone, Copy, Debug, PartialEq, Eq, Structural)]
pub enum ColourEntry {
    /// A numbered combo colour `Combo<n>`.
    Combo(i32, Colour),
    Body(Colour),
    Track(Colour),
    Border(Colour),
}

pub open spec fn combo_prefix() -> Seq<char> {
    seq!['C', 'o', 'm', 'b', 'o']
}

/// Whether a key is `Combo` followed by decimal digits.
pub open spec fn is_combo_key(k: Seq<char>) -> bool {
    k.len() > 5 && k.subrange(0, 5) == combo_prefix() && all_digits(k.subrange(5, k.len() as int))
}

pub open spec fn unknown_key_reason() -> Seq<char> {
    "Unknown key value"@
}

/// What a pair of the Colours section gives; any key but a combo number and the three slider
/// overrides is an error.
pub open spec fn colour_entry(p: (Seq<char>, Seq<char>)) -> Result<ColourEntry, Fault> {
    let (k, v) = p;
    if is_combo_key(k) {
        match int_text_value(k.subrange(5, k.len() as int)) {
            None => Err(Fault::Invalid(crate::fields::number_reason())),
            Some(n) => match colour_result(v) {
                Err(f) => Err(f),
                Ok(c) => Ok(ColourEntry::Combo(n, c)),
            },
        }
    } else if k == "SliderBody"@ || k == "SliderTrackOverride"@ || k == "SliderBorder"@ {
        match colour_result(v) {
            Err(f) => Err(f),
            Ok(c) => Ok(
                if k == "SliderBody"@ {
                    ColourEntry::Body(c)
                } else if k == "SliderTrackOverride"@ {
                    ColourEntry::Track(c)
                } else {
                    ColourEntry::Border(c)
                },
            ),
        }
    } else {
        Err(Fault::Invalid(unknown_key_reason()))
    }
}

pub open spec fn colour_entries(pairs: Seq<(Seq<char>, Seq<char>)>) -> Result<Seq<ColourEntry>, Fault> {
    collect(pairs.map_values(|p: (Seq<char>, Seq<char>)| colour_entry(p)))
}

/// The numbered combo colours, in the order of their lines.
pub open spec fn combos_of(es: Seq<ColourEntry>) -> Seq<(i32, Colour)>
    decreases es.len(),
{
    if es.len() == 0 {
        Seq::empty()
    } else {
        match es.last() {
            ColourEntry::Combo(n, c) => combos_of(es.drop_last()).push((n, c)),
            _ => combos_of(es.drop_last()),
        }
    }
}

/// The last override of the kind `which` (0 body, 1 track, 2 border), or black.
pub open spec fn last_override(es: Seq<ColourEntry>, which: int) -> Colour
    decreases es.len(),
{
    if es.len() == 0 {
        Colour(0, 0, 0)
    } else {
        match es.last() {
            ColourEntry::Body(c) if which == 0 => c,
            ColourEntry::Track(c) if which == 1 => c,
            ColourEntry::Border(c) if which == 2 => c,
            _ => last_override(es.drop_last(), which),
        }
    }
}

/// Order by combo number, then by red, green and blue.
pub open spec fn pair_le(a: (i32, Colour), b: (i32, Colour)) -> bool {
    a.0 < b.0 || (a.0 == b.0 && (a.1.0 < b.1.0 || (a.1.0 == b.1.0 && (a.1.1 < b.1.1 || (a.1.1
        == b.1.1 && a.1.2 <= b.1.2)))))
}

pub open spec fn sorted_pairs(ps: Seq<(i32, Colour)>) -> bool {
    forall|i: int, j: int| 0 <= i < j < ps.len() ==> pair_le(#[trigger] ps[i], #[trigger] ps[j])
}

/// Whether `s` is the Colours record of the entries `es`: the combo colours sorted by their
/// number (then by value), and the last override of each kind.
pub open spec fn colours_fit(s: ColoursSection, es: Seq<ColourEntry>) -> bool {
    &&& exists|ps: Seq<(i32, Colour)>|
        sorted_pairs(ps) && ps.to_multiset() == combos_of(es).to_multiset() && s.colours@
            == ps.map_values(|p: (i32, Colour)| p.1)
    &&& s.slider_body == last_override(es, 0)
    &&& s.slider_track_override == last_override(es, 1)
    &&& s.slider_border == last_override(es, 2)
}

fn pair_le_exec(a: (i32, Colour), b: (i32, Colour)) -> (r: bool)
    ensures
        r == pair_le(a, b),
{
    a.0 < b.0 || (a.0 == b.0 && (a.1.0 < b.1.0 || (a.1.0 == b.1.0 && (a.1.1 < b.1.1 || (a.1.1
        == b.1.1 && a.1.2 <= b.1.2)))))
}

/// Puts `x` into the sorted `v` at its place.
fn insert_sorted(v: &mut Vec<(i32, Colour)>, x: (i32, Colour))
    requires
        sorted_pairs(old(v)@),
    ensures
        sorted_pairs(final(v)@),
        final(v)@.to_multiset() == old(v)@.to_multiset().insert(x),
{
    let mut pos: usize = 0;
    while pos < v.len() && pair_le_exec(v[pos], x)
        invariant
            pos <= v@.len(),
            v@ == old(v)@,
            sorted_pairs(v@),
            forall|k: int| 0 <= k < pos ==> pair_le(#[trigger] v@[k], x),
        decreases v@.len() - pos,
    {
        pos += 1;
    }
    let ghost before = v@;
    v.insert(pos, x);
    proof {
        vstd::seq_lib::to_multiset_insert(before, pos as int, x);
        assert(v@ == before.insert(pos as int, x));
        assert forall|i: int, j: int| 0 <= i < j < v@.len() implies pair_le(
            #[trigger] v@[i],
            #[trigger] v@[j],
        ) by {
            if j < pos {
                assert(v@[i] == before[i] && v@[j] == before[j]);
            } else if j == pos {
                assert(v@[i] == before[i]);
            } else if i < pos {
                assert(v@[i] == before[i] && v@[j] == before[j - 1]);
            } else if i == pos {
                assert(v@[j] == before[j - 1]);
                assert(pair_le(before[pos as int], before[j - 1]));
            } else {
                assert(v@[i] == before[i - 1] && v@[j] == before[j - 1]);
            }
        }
    }
}

fn is_combo_key_exec(k: &[char]) -> (r: Option<Vec<char>>)
    ensures
        is_combo_key(k@) ==> (r matches Some(d) && d@ == k@.subrange(5, k@.len() as int)),
        !is_combo_key(k@) ==> r is None,
{
    if k.len() <= 5 || !same_text(crate::text::slice_of(k, 0, 5).as_slice(), "Combo") {
        proof {
            reveal_strlit("Combo");
            assert("Combo"@ =~= combo_prefix());
        }
        return None;
    }
    proof {
        reveal_strlit("Combo");
        assert("Combo"@ =~= combo_prefix());
    }
    let d = crate::text::slice_of(k, 5, k.len());
    let mut i: usize = 0;
    while i < d.len()
        invariant
            i <= d@.len(),
            d@ == k@.subrange(5, k@.len() as int),
            forall|q: int| 0 <= q < i ==> crate::number::is_digit(#[trigger] d@[q]),
        decreases d@.len() - i,
    {
        if !('0' <= d[i] && d[i] <= '9') {
            assert(!crate::number::is_digit(d@[i as int]));
            assert(!all_digits(k@.subrange(5, k@.len() as int)));
            return None;
        }
        i += 1;
    }
    Some(d)
}

fn colour_entry_in(k: &[char], v: &[char]) -> (r: Result<ColourEntry, Error>)
    ensures
        crate::fields::conforms(r, colour_entry((k@, v@))),
{
    match is_combo_key_exec(k) {
        Some(d) => {
            match int_of_chars(d.as_slice()) {
                None => Err(syntax_error("Unable to parse number")),
                Some(n) => {
                    let c = colour_in(v)?;
                    Ok(ColourEntry::Combo(n, c))
                },
            }
        },
        None => {
            if same_text(k, "SliderBody") {
                let c = colour_in(v)?;
                Ok(ColourEntry::Body(c))
            } else if same_text(k, "SliderTrackOverride") {
                let c = colour_in(v)?;
                Ok(ColourEntry::Track(c))
            } else if same_text(k, "SliderBorder") {
                let c = colour_in(v)?;
                Ok(ColourEntry::Border(c))
            } else {
                Err(syntax_error("Unknown key value"))
            }
        },
    }
}

pub proof fn lemma_pairs_prefix(lines: Seq<Seq<char>>, from: int, n: int)
    requires
        0 <= from <= n <= lines.len(),
        pairs_end(lines, from) == pairs_end(lines, n),
    ensures
        n <= pairs_end(lines, from) <= lines.len(),
        pairs_of(lines, from, n) == pairs_of(lines, from, pairs_end(lines, from)).subrange(
            0,
            n - from,
        ),
{
    crate::sections::lemma_pairs_end_bounds(lines, n);
    let q = pairs_end(lines, from);
    assert(pairs_of(lines, from, n) =~= pairs_of(lines, from, q).subrange(0, n - from));
}

/// The Colours section after the held header: numbered combo colours, sorted by number, and
/// the three slider overrides.
#[verifier::rlimit(100)]
#[verifier::spinoff_prover]
pub fn parse_colours(state: &mut ParseState) -> (r: Result<ColoursSection, Error>)
    requires
        old(state).wf(),
        old(state)@.current is Some,
    ensures
        final(state).wf(),
        final(state)@.lines == old(state)@.lines,
        ({
            let lines = old(state)@.lines;
            let from = old(state)@.next as int;
            let q = pairs_end(lines, from);
            let es = colour_entries(pairs_of(lines, from, q));
            &&& r is Ok <==> es is Ok
            &&& r matches Ok(s) ==> colours_fit(s, es->Ok_0) && holds_at(final(state)@, q)
            &&& r matches Err(e) ==> (es matches Err(f) && reports(e, f))
        }),
{
    let ghost lines = state@.lines;
    let ghost from = state@.next as int;
    let mut combos: Vec<(i32, Colour)> = Vec::new();
    let mut body = Colour(0, 0, 0);
    let mut track = Colour(0, 0, 0);
    let mut border = Colour(0, 0, 0);
    let ghost mut es: Seq<ColourEntry> = Seq::empty();
    assert(pairs_of(lines, from, from) =~= Seq::<(Seq<char>, Seq<char>)>::empty());
    assert(pairs_of(lines, from, from).map_values(|p: (Seq<char>, Seq<char>)| colour_entry(p))
        =~= Seq::<Result<ColourEntry, Fault>>::empty());
    loop
        invariant
            state.wf(),
            state@.lines == lines,
            lines == old(state)@.lines,
            from == old(state)@.next,
            0 <= from <= state@.next,
            pairs_end(lines, from) == pairs_end(lines, state@.next as int),
            colour_entries(pairs_of(lines, from, state@.next as int)) == Ok::<Seq<ColourEntry>, Fault>(es),
            sorted_pairs(combos@),
            combos@.to_multiset() == combos_of(es).to_multiset(),
            body == last_override(es, 0),
            track == last_override(es, 1),
            border == last_override(es, 2),
        decreases lines.len() - state@.next,
    {
        let ghost before = pairs_of(lines, from, state@.next as int);
        let ghost n0 = state@.next as int;
        match next_pair(state, Ghost(from)) {
            None => {
                proof {
                    let q = pairs_end(lines, from);
                    if q < lines.len() {
                        assert(state@.next == q + 1);
                    }
                    assert(pairs_of(lines, from, q) == before);
                }
                let mut colours: Vec<Colour> = Vec::new();
                let mut i: usize = 0;
                while i < combos.len()
                    invariant
                        i <= combos@.len(),
                        colours@ == combos@.subrange(0, i as int).map_values(|p: (i32, Colour)| p.1),
                    decreases combos@.len() - i,
                {
                    colours.push(combos[i].1);
                    i += 1;
                    assert(colours@ =~= combos@.subrange(0, i as int).map_values(|p: (i32, Colour)| p.1));
                }
                assert(combos@.subrange(0, i as int) =~= combos@);
                let s = ColoursSection {
                    colours,
                    slider_body: body,
                    slider_track_override: track,
                    slider_border: border,
                };
                assert(sorted_pairs(combos@) && combos@.to_multiset() == combos_of(es).to_multiset()
                    && s.colours@ == combos@.map_values(|p: (i32, Colour)| p.1));
                return Ok(s);
            },
            Some((k, v)) => {
                let ghost x = (k@, v@);
                let ghost after = before.push(x);
                proof {
                    let rs = after.map_values(|p: (Seq<char>, Seq<char>)| colour_entry(p));
                    assert(rs.drop_last() =~= before.map_values(|p: (Seq<char>, Seq<char>)| colour_entry(p)));
                    assert(rs.last() == colour_entry(x));
                }
                match colour_entry_in(k.as_slice(), v.as_slice()) {
                    Err(e) => {
                        proof {
                            lemma_pairs_prefix(lines, from, state@.next as int);
                            let q = pairs_end(lines, from);
                            let full = pairs_of(lines, from, q).map_values(|p: (Seq<char>, Seq<char>)| colour_entry(p));
                            assert(full.subrange(0, state@.next - from) =~= after.map_values(|p: (Seq<char>, Seq<char>)| colour_entry(p)));
                            crate::fields::lemma_collect_prefix_fault(full, state@.next - from);
                        }
                        return Err(e);
                    },
                    Ok(entry) => {
                        let ghost old_es = es;
                        proof {
                            es = es.push(entry);
                            assert(es.drop_last() =~= old_es);
                        }
                        match entry {
                            ColourEntry::Combo(n, c) => {
                                insert_sorted(&mut combos, (n, c));
                                proof {
                                    vstd::seq_lib::to_multiset_build(combos_of(old_es), (n, c));
                                }
                            },
                            ColourEntry::Body(c) => {
                                body = c;
                            },
                            ColourEntry::Track(c) => {
                                track = c;
                            },
                            ColourEntry::Border(c) => {
                                border = c;
                            },
                        }
                    },
                }
            },
        }
    }
}

/// The combo colours of a decoded Colours section are those of its `Combo<n>` lines, none
/// dropped and none added, in order of their numbers.
pub proof fn lemma_colours_by_number(s: ColoursSection, es: Seq<ColourEntry>)
    requires
        colours_fit(s, es),
    ensures
        exists|ps: Seq<(i32, Colour)>|
            (#[trigger] ps.to_multiset()) == combos_of(es).to_multiset() && s.colours@ == ps.map_values(
                |p: (i32, Colour)| p.1,
            ) && forall|i: int, j: int| 0 <= i < j < ps.len() ==> #[trigger] ps[i].0 <= #[trigger] ps[j].0,
{
    let ps = choose|ps: Seq<(i32, Colour)>|
        sorted_pairs(ps) && ps.to_multiset() == combos_of(es).to_multiset() && s.colours@
            == ps.map_values(|p: (i32, Colour)| p.1);
    assert forall|i: int, j: int| 0 <= i < j < ps.len() implies #[trigger] ps[i].0 <= #[trigger] ps[j].0 by {
        assert(pair_le(ps[i], ps[j]));
    }
}

} // verus!
