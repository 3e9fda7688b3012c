//! Whole chart documents: the version line, the sequence of sections, and the bundle of
//! files that a chart comes in.
use vstd::prelude::*;
use vstd::string::StringExecFns;
use crate::beatmap::{
    ColoursSection, Difficulty, DifficultySection, EditorSection, Error, GeneralSection, HitObject,
    MetadataSection, TimingPoint,
};
use crate::fields::{first_fault, hit_object_fault, hit_object_is, reports, syntax_with, Fault};
use crate::lists::{
    body_end, colour_entries, colours_fit, lemma_body_end_bounds, marker_decodes, marker_faults,
    marker_is, object_faults, parse_colours, parse_hit_objects, parse_timing_points, skip_section,
};
use crate::scanner::{header_name, header_of, version_of, version_value, ParseState};
use crate::sections::{
    difficulty_fits, editor_fits, general_fits, holds_at, lemma_pairs_end_bounds, metadata_fits,
    pair_faults, pairs_decode, pairs_end, pairs_of, parse_difficulty_section, parse_editor, parse_general,
    parse_metadata, same_text, Table,
};

verus! {

/// The kinds of section a document may hold.
#[derive(Clone, Copy, Debug, PartialEq, Eq, Structural)]
pub enum SectionKind {
    General,
    Editor,
    Metadata,
    Difficulty,
    Events,
    TimingPoints,
    HitObjects,
    Colours,
}

pub open spec fn section_kind(name: Seq<char>) -> Option<SectionKind> {
    if name == "General"@ {
        Some(SectionKind::General)
    } else if name == "Editor"@ {
        Some(SectionKind::Editor)
    } else if name == "Metadata"@ {
        Some(SectionKind::Metadata)
    } else if name == "Difficulty"@ {
        Some(SectionKind::Difficulty)
    } else if name == "Events"@ {
        Some(SectionKind::Events)
    } else if name == "TimingPoints"@ {
        Some(SectionKind::TimingPoints)
    } else if name == "HitObjects"@ {
        Some(SectionKind::HitObjects)
    } else if name == "Colours"@ {
        Some(SectionKind::Colours)
    } else {
        None
    }
}

/// The kind of the section whose header is line `p`.
pub open spec fn kind_at(lines: Seq<Seq<char>>, p: int) -> Option<SectionKind> {
    if 0 <= p < lines.len() {
        match header_name(lines[p]) {
            Some(n) => section_kind(n),
            None => None,
        }
    } else {
        None
    }
}

/// Whether the lines of a section of kind `k` are `key: value` pairs.
pub open spec fn holds_pairs(k: SectionKind) -> bool {
    k != SectionKind::Events && k != SectionKind::TimingPoints && k != SectionKind::HitObjects
}

/// The line after the section whose header is line `p`.
pub open spec fn section_end(lines: Seq<Seq<char>>, p: int, k: SectionKind) -> int {
    if holds_pairs(k) {
        pairs_end(lines, p + 1)
    } else {
        body_end(lines, p + 1)
    }
}

/// Whether every line of the section whose header is line `p` decodes.
pub open spec fn section_decodes(lines: Seq<Seq<char>>, p: int, k: SectionKind) -> bool {
    let e = section_end(lines, p, k);
    let pairs = pairs_of(lines, p + 1, e);
    match k {
        SectionKind::General => pairs_decode(pairs, Table::General),
        SectionKind::Editor => pairs_decode(pairs, Table::Editor),
        SectionKind::Metadata => pairs_decode(pairs, Table::Metadata),
        SectionKind::Difficulty => pairs_decode(pairs, Table::Difficulty),
        SectionKind::Colours => colour_entries(pairs) is Ok,
        SectionKind::Events => true,
        SectionKind::TimingPoints => forall|i: int| p + 1 <= i < e ==> marker_decodes(#[trigger] lines[i]),
        SectionKind::HitObjects => forall|i: int|
            p + 1 <= i < e ==> hit_object_fault(#[trigger] lines[i]) is None,
    }
}

/// The header lines of the sections from line `p` on, when each of them is a known header.
pub open spec fn section_starts(lines: Seq<Seq<char>>, p: int) -> Option<Seq<int>>
    decreases lines.len() - p,
{
    if p < 1 || p >= lines.len() {
        Some(Seq::empty())
    } else {
        match kind_at(lines, p) {
            None => None,
            Some(k) => {
                proof {
                    lemma_pairs_end_bounds(lines, p + 1);
                    lemma_body_end_bounds(lines, p + 1);
                }
                match section_starts(lines, section_end(lines, p, k)) {
                    None => None,
                    Some(rest) => Some(seq![p] + rest),
                }
            },
        }
    }
}

/// Whether a document decodes: a version line, then known sections whose lines all decode.
pub open spec fn document_decodes(lines: Seq<Seq<char>>) -> bool {
    &&& lines.len() >= 1
    &&& version_value(lines[0]) is Some
    &&& section_starts(lines, 1) matches Some(ss) && forall|i: int|
        0 <= i < ss.len() ==> section_decodes(lines, #[trigger] ss[i], kind_at(lines, ss[i])->0)
}

/// The last of the sections `ss` that is of kind `k`.
pub open spec fn last_start(lines: Seq<Seq<char>>, ss: Seq<int>, k: SectionKind) -> Option<int>
    decreases ss.len(),
{
    if ss.len() == 0 {
        None
    } else if kind_at(lines, ss.last()) == Some(k) {
        Some(ss.last())
    } else {
        last_start(lines, ss.drop_last(), k)
    }
}

pub open spec fn run_pairs(lines: Seq<Seq<char>>, p: int) -> Seq<(Seq<char>, Seq<char>)> {
    pairs_of(lines, p + 1, pairs_end(lines, p + 1))
}

pub open spec fn markers_fit(v: Seq<TimingPoint>, lines: Seq<Seq<char>>, p: int) -> bool {
    v.len() == body_end(lines, p + 1) - (p + 1) && forall|i: int|
        0 <= i < v.len() ==> marker_is(#[trigger] v[i], lines[p + 1 + i])
}

pub open spec fn objects_fit(v: Seq<HitObject>, lines: Seq<Seq<char>>, p: int) -> bool {
    v.len() == body_end(lines, p + 1) - (p + 1) && forall|i: int|
        0 <= i < v.len() ==> hit_object_is(#[trigger] v[i], lines[p + 1 + i])
}

/// Whether `d` holds what the sections `ss` give, and no audio: see `records_fit`.
pub open spec fn sections_fit(d: Difficulty, lines: Seq<Seq<char>>, ss: Seq<int>) -> bool {
    records_fit(d, lines, ss) && d.audio_bytes@.len() == 0
}

/// Whether `d` holds what the sections `ss` give: each section record from the last section
/// of its kind, or its defaults when there is none.
pub open spec fn records_fit(d: Difficulty, lines: Seq<Seq<char>>, ss: Seq<int>) -> bool {
    &&& match last_start(lines, ss, SectionKind::General) {
        Some(p) => general_fits(d.general, run_pairs(lines, p)),
        None => d.general.is_default(),
    }
    &&& match last_start(lines, ss, SectionKind::Editor) {
        Some(p) => editor_fits(d.editor, run_pairs(lines, p)),
        None => d.editor.is_default(),
    }
    &&& match last_start(lines, ss, SectionKind::Metadata) {
        Some(p) => metadata_fits(d.metadata, run_pairs(lines, p)),
        None => d.metadata.is_default(),
    }
    &&& match last_start(lines, ss, SectionKind::Difficulty) {
        Some(p) => difficulty_fits(d.difficulty, run_pairs(lines, p)),
        None => d.difficulty.is_default(),
    }
    &&& match last_start(lines, ss, SectionKind::Colours) {
        Some(p) => colours_fit(d.colours, colour_entries(run_pairs(lines, p))->Ok_0),
        None => d.colours.is_default(),
    }
    &&& match last_start(lines, ss, SectionKind::TimingPoints) {
        Some(p) => markers_fit(d.timing_points@, lines, p),
        None => d.timing_points@.len() == 0,
    }
    &&& match last_start(lines, ss, SectionKind::HitObjects) {
        Some(p) => objects_fit(d.hit_objects@, lines, p),
        None => d.hit_objects@.len() == 0,
    }
}

/// The audio file name that a decoded document's General section gives.
pub open spec fn general_audio(lines: Seq<Seq<char>>) -> Seq<char> {
    match last_start(lines, section_starts(lines, 1)->0, SectionKind::General) {
        Some(p) => crate::sections::text_or_empty(
            crate::sections::last_value(
                run_pairs(lines, p),
                crate::sections::keys_of(Table::General),
                0,
            ),
        ),
        None => Seq::empty(),
    }
}

/// A decoded section.
pub enum Section {
    General(GeneralSection),
    Editor(EditorSection),
    Metadata(MetadataSection),
    TimingPoints(Vec<TimingPoint>),
    HitObjects(Vec<HitObject>),
    Difficulty(DifficultySection),
    Colours(ColoursSection),
    Events,
    End,
}

/// Whether `s` is what the section whose header is line `p` gives.
pub open spec fn section_is(s: Section, lines: Seq<Seq<char>>, p: int) -> bool {
    match s {
        Section::General(x) => kind_at(lines, p) == Some(SectionKind::General) && general_fits(
            x,
            run_pairs(lines, p),
        ),
        Section::Editor(x) => kind_at(lines, p) == Some(SectionKind::Editor) && editor_fits(
            x,
            run_pairs(lines, p),
        ),
        Section::Metadata(x) => kind_at(lines, p) == Some(SectionKind::Metadata) && metadata_fits(
            x,
            run_pairs(lines, p),
        ),
        Section::Difficulty(x) => kind_at(lines, p) == Some(SectionKind::Difficulty)
            && difficulty_fits(x, run_pairs(lines, p)),
        Section::Colours(x) => kind_at(lines, p) == Some(SectionKind::Colours) && colours_fit(
            x,
            colour_entries(run_pairs(lines, p))->Ok_0,
        ),
        Section::TimingPoints(v) => kind_at(lines, p) == Some(SectionKind::TimingPoints)
            && markers_fit(v@, lines, p),
        Section::HitObjects(v) => kind_at(lines, p) == Some(SectionKind::HitObjects) && objects_fit(
            v@,
            lines,
            p,
        ),
        Section::Events => kind_at(lines, p) == Some(SectionKind::Events),
        Section::End => p >= lines.len(),
    }
}

/// The line that the scanner would give as its current one: the line it holds, or else the
/// next line; the number of lines when there is none.
pub open spec fn held(state: &ParseState) -> int {
    match state@.current {
        Some(p) => p as int,
        None => state@.next as int,
    }
}

pub open spec fn malformed_header_reason() -> Seq<char> {
    "Malformed section header"@
}

/// The reason given for a section of an unknown name: it names the section.
pub open spec fn unknown_section_reason(name: Seq<char>) -> Seq<char> {
    "Unknown section header "@ + name
}

pub open spec fn version_reason() -> Seq<char> {
    "unable to parse version string"@
}

/// Why the section whose header is line `p` does not decode: a header of the wrong shape, an
/// unknown name, or the first line of the section that does not decode; `None` when it decodes.
pub open spec fn section_fault(lines: Seq<Seq<char>>, p: int) -> Option<Fault> {
    if p < 0 || p >= lines.len() {
        None
    } else {
        match header_name(lines[p]) {
            None => Some(Fault::Invalid(malformed_header_reason())),
            Some(n) => match section_kind(n) {
                None => Some(Fault::Invalid(unknown_section_reason(n))),
                Some(k) => {
                    let e = section_end(lines, p, k);
                    let pairs = pairs_of(lines, p + 1, e);
                    match k {
                        SectionKind::General => first_fault(pair_faults(pairs, Table::General)),
                        SectionKind::Editor => first_fault(pair_faults(pairs, Table::Editor)),
                        SectionKind::Metadata => first_fault(pair_faults(pairs, Table::Metadata)),
                        SectionKind::Difficulty => first_fault(
                            pair_faults(pairs, Table::Difficulty),
                        ),
                        SectionKind::Colours => match colour_entries(pairs) {
                            Err(f) => Some(f),
                            Ok(_) => None,
                        },
                        SectionKind::Events => None,
                        SectionKind::TimingPoints => first_fault(marker_faults(lines, p + 1, e)),
                        SectionKind::HitObjects => first_fault(object_faults(lines, p + 1, e)),
                    }
                },
            },
        }
    }
}

/// The fault of the first section from line `p` on that does not decode.
pub open spec fn walk_fault(lines: Seq<Seq<char>>, p: int) -> Option<Fault>
    decreases lines.len() - p,
{
    if p < 1 || p >= lines.len() {
        None
    } else {
        match section_fault(lines, p) {
            Some(f) => Some(f),
            None => {
                proof {
                    lemma_pairs_end_bounds(lines, p + 1);
                    lemma_body_end_bounds(lines, p + 1);
                }
                walk_fault(lines, section_end(lines, p, kind_at(lines, p)->0))
            },
        }
    }
}

/// Why a document does not decode: its version line, or the first section that fails.
pub open spec fn document_fault(lines: Seq<Seq<char>>) -> Option<Fault> {
    if lines.len() == 0 || version_value(lines[0]) is None {
        Some(Fault::Invalid(version_reason()))
    } else {
        walk_fault(lines, 1)
    }
}

/// Reads the section whose header is the held line; at the end of the lines, `Section::End`.
#[verifier::rlimit(100)]
#[verifier::spinoff_prover]
pub fn parse_section(state: &mut ParseState) -> (r: Result<Section, Error>)
    requires
        old(state).wf(),
    ensures
        final(state).wf(),
        final(state)@.lines == old(state)@.lines,
        ({
            let lines = old(state)@.lines;
            let p = held(old(state));
            &&& r is Ok <==> p >= lines.len() || (kind_at(lines, p) matches Some(k)
                && section_decodes(lines, p, k))
            &&& r matches Ok(s) ==> section_is(s, lines, p)
            &&& (r is Ok && p < lines.len()) ==> holds_at(
                final(state)@,
                section_end(lines, p, kind_at(lines, p)->0),
            )
            &&& p >= lines.len() ==> final(state)@.current is None && final(state)@.next
                == lines.len()
            &&& r is Ok ==> section_fault(lines, p) is None
            &&& r matches Err(e) ==> (section_fault(lines, p) matches Some(f) && reports(e, f))
        }),
{
    let ghost lines = state@.lines;
    let ghost p = held(state);
    let i = match state.current() {
        Some(i) => i,
        None => {
            return Ok(Section::End);
        },
    };
    let name = match header_of(state.line(i).as_slice()) {
        Some(n) => n,
        None => {
            return Err(crate::fields::syntax_error("Malformed section header"));
        },
    };
    proof {
        lemma_pairs_end_bounds(lines, p + 1);
        lemma_body_end_bounds(lines, p + 1);
        assert(run_pairs(lines, p) == pairs_of(lines, p + 1, pairs_end(lines, p + 1)));
    }
    let n = name.as_slice();
    if same_text(n, "General") {
        let s = parse_general(state)?;
        Ok(Section::General(s))
    } else if same_text(n, "Editor") {
        let s = parse_editor(state)?;
        Ok(Section::Editor(s))
    } else if same_text(n, "Metadata") {
        let s = parse_metadata(state)?;
        Ok(Section::Metadata(s))
    } else if same_text(n, "Difficulty") {
        let s = parse_difficulty_section(state)?;
        Ok(Section::Difficulty(s))
    } else if same_text(n, "Events") {
        skip_section(state);
        Ok(Section::Events)
    } else if same_text(n, "TimingPoints") {
        let v = parse_timing_points(state)?;
        Ok(Section::TimingPoints(v))
    } else if same_text(n, "HitObjects") {
        let v = parse_hit_objects(state)?;
        Ok(Section::HitObjects(v))
    } else if same_text(n, "Colours") {
        let s = parse_colours(state)?;
        Ok(Section::Colours(s))
    } else {
        let mut m = String::from_str("Unknown section header ");
        let shown = crate::text::string_of(n);
        m.append(shown.as_str());
        proof {
            reveal_strlit("General");
            reveal_strlit("Editor");
            reveal_strlit("Metadata");
            reveal_strlit("Difficulty");
            reveal_strlit("Events");
            reveal_strlit("TimingPoints");
            reveal_strlit("HitObjects");
            reveal_strlit("Colours");
        }
        Err(Error::Syntax(m))
    }
}

/// Reads the version from the first line, `osu file format v<digits>`.
pub fn parse_version_string(state: &mut ParseState) -> (r: Result<i32, Error>)
    requires
        old(state).wf(),
        old(state)@.next == 0,
        old(state)@.current is None,
    ensures
        final(state).wf(),
        final(state)@.lines == old(state)@.lines,
        old(state)@.lines.len() >= 1 ==> final(state)@.next == 1 && final(state)@.current == Some(
            0nat,
        ),
        match r {
            Ok(v) => old(state)@.lines.len() >= 1 && version_value(old(state)@.lines[0]) == Some(v),
            Err(e) => syntax_with(e, version_reason()) && (old(state)@.lines.len() == 0 || version_value(
                old(state)@.lines[0],
            ) is None),
        },
{
    match state.current() {
        Some(i) => match version_of(state.line(i).as_slice()) {
            Some(v) => Ok(v),
            None => Err(crate::fields::syntax_error("unable to parse version string")),
        },
        None => Err(crate::fields::syntax_error("unable to parse version string")),
    }
}

/// `done` followed by `rest`, when there is a rest.
pub open spec fn join(done: Seq<int>, rest: Option<Seq<int>>) -> Option<Seq<int>> {
    match rest {
        Some(r) => Some(done + r),
        None => None,
    }
}

pub proof fn lemma_last_start_push(lines: Seq<Seq<char>>, ss: Seq<int>, p: int)
    ensures
        forall|k: SectionKind|
            #[trigger] last_start(lines, ss.push(p), k) == if kind_at(lines, p) == Some(k) {
                Some(p)
            } else {
                last_start(lines, ss, k)
            },
{
    assert(ss.push(p).drop_last() =~= ss);
}

/// The bytes of the first entry named `name`.
pub open spec fn lookup(files: Seq<(Seq<char>, Seq<u8>)>, name: Seq<char>) -> Option<Seq<u8>>
    decreases files.len(),
{
    if files.len() == 0 {
        None
    } else if files[0].0 == name {
        Some(files[0].1)
    } else {
        lookup(files.drop_first(), name)
    }
}

pub open spec fn chart_suffix() -> Seq<char> {
    seq!['.', 'o', 's', 'u']
}

/// Whether a file name is that of a chart document.
pub open spec fn is_chart_name(name: Seq<char>) -> bool {
    name.len() >= 4 && name.subrange(name.len() - 4, name.len() as int) == chart_suffix()
}

/// The names of the chart documents among the entries, in order.
pub open spec fn chart_names_of(files: Seq<(Seq<char>, Seq<u8>)>) -> Seq<Seq<char>>
    decreases files.len(),
{
    if files.len() == 0 {
        Seq::empty()
    } else if is_chart_name(files.last().0) {
        chart_names_of(files.drop_last()).push(files.last().0)
    } else {
        chart_names_of(files.drop_last())
    }
}

/// Relies on `String::from_utf8`: the text of the bytes when they are valid UTF-8.
#[verifier::external_body]
fn utf8_text(b: Vec<u8>) -> (r: Option<String>)
    ensures
        r is Some <==> vstd::utf8::valid_utf8(b@),
        r matches Some(s) ==> s@ == vstd::utf8::decode_utf8(b@),
{
    String::from_utf8(b).ok()
}

fn copy_bytes(b: &Vec<u8>) -> (r: Vec<u8>)
    ensures
        r@ == b@,
{
    let mut r: Vec<u8> = Vec::new();
    let mut i: usize = 0;
    while i < b.len()
        invariant
            i <= b@.len(),
            r@ == b@.subrange(0, i as int),
        decreases b@.len() - i,
    {
        r.push(b[i]);
        i += 1;
        assert(r@ =~= b@.subrange(0, i as int));
    }
    assert(b@.subrange(0, i as int) =~= b@);
    r
}

pub open spec fn missing_audio_reason() -> Seq<char> {
    "Failed to retrieve audio from osz"@
}

/// The files of a chart bundle, by name, from which its chart documents decode.
pub struct OsuParser {
    files: Vec<(String, Vec<u8>)>,
}

impl View for OsuParser {
    type V = Seq<(Seq<char>, Seq<u8>)>;

    closed spec fn view(&self) -> Seq<(Seq<char>, Seq<u8>)> {
        self.files@.map_values(|f: (String, Vec<u8>)| (f.0@, f.1@))
    }
}

impl OsuParser {
    /// No two files share a name.
    pub open spec fn wf(&self) -> bool {
        forall|i: int, j: int|
            0 <= i < j < self@.len() ==> (#[trigger] self@[i]).0 != (#[trigger] self@[j]).0
    }

    /// Decodes a chart document: the version line, then its sections. A section that comes
    /// twice counts by its last occurrence; a section that is absent keeps its defaults.
    #[verifier::rlimit(100)]
    #[verifier::spinoff_prover]
    pub fn parse_difficulty(input: &str) -> (r: Result<Difficulty, Error>)
        ensures
            ({
                let lines = crate::scanner::content_lines(input@);
                &&& r is Ok <==> document_decodes(lines)
                &&& r matches Ok(d) ==> d.version == version_value(lines[0])->0 && sections_fit(
                    d,
                    lines,
                    section_starts(lines, 1)->0,
                )
                &&& r is Ok ==> document_fault(lines) is None
                &&& r matches Err(e) ==> (document_fault(lines) matches Some(f) && reports(e, f))
            }),
    {
        let mut state = ParseState::new(input);
        let ghost lines = state@.lines;
        let version = parse_version_string(&mut state)?;
        state.advance();
        let mut map = Difficulty::default();
        map.version = version;
        let ghost mut done: Seq<int> = Seq::empty();
        assert(done + section_starts(lines, 1)->0 =~= section_starts(lines, 1)->0);
        proof {
            lemma_last_start_push(lines, Seq::empty(), 0);
        }
        loop
            invariant
                state.wf(),
                state@.lines == lines,
                lines == crate::scanner::content_lines(input@),
                lines.len() >= 1,
                version_value(lines[0]) == Some(version),
                map.version == version,
                state@.current is Some || state@.next == lines.len(),
                1 <= held(&state) <= lines.len(),
                section_starts(lines, 1) == join(done, section_starts(lines, held(&state))),
                walk_fault(lines, 1) == walk_fault(lines, held(&state)),
                forall|i: int|
                    0 <= i < done.len() ==> kind_at(lines, #[trigger] done[i]) is Some && section_decodes(
                        lines,
                        done[i],
                        kind_at(lines, done[i])->0,
                    ),
                sections_fit(map, lines, done),
            decreases lines.len() - held(&state),
        {
            let ghost pos = held(&state);
            proof {
                if pos < lines.len() {
                    lemma_pairs_end_bounds(lines, pos + 1);
                    lemma_body_end_bounds(lines, pos + 1);
                }
            }
            let sec = match parse_section(&mut state) {
                Ok(sec) => sec,
                Err(e) => {
                    proof {
                        match section_starts(lines, pos) {
                            Some(rest) => {
                                let ss = done + rest;
                                assert(rest[0] == pos);
                                assert(ss[done.len() as int] == pos);
                            },
                            None => {},
                        }
                        assert(walk_fault(lines, pos) == section_fault(lines, pos));
                    }
                    return Err(e);
                },
            };
            proof {
                lemma_last_start_push(lines, done, pos);
            }
            match sec {
                Section::End => {
                    proof {
                        assert(done + Seq::<int>::empty() =~= done);
                    }
                    return Ok(map);
                },
                Section::General(x) => {
                    map.general = x;
                },
                Section::Editor(x) => {
                    map.editor = x;
                },
                Section::Metadata(x) => {
                    map.metadata = x;
                },
                Section::Difficulty(x) => {
                    map.difficulty = x;
                },
                Section::Colours(x) => {
                    map.colours = x;
                },
                Section::TimingPoints(x) => {
                    map.timing_points = x;
                },
                Section::HitObjects(x) => {
                    map.hit_objects = x;
                },
                Section::Events => {},
            }
            proof {
                let k = kind_at(lines, pos)->0;
                let e = section_end(lines, pos, k);
                assert(held(&state) == e);
                assert(walk_fault(lines, pos) == walk_fault(lines, e));
                match section_starts(lines, e) {
                    Some(rest) => {
                        assert(done + (seq![pos] + rest) =~= done.push(pos) + rest);
                    },
                    None => {},
                }
                let nd = done.push(pos);
                assert forall|i: int|
                    0 <= i < nd.len() implies kind_at(lines, #[trigger] nd[i]) is Some && section_decodes(
                    lines,
                    nd[i],
                    kind_at(lines, nd[i])->0,
                ) by {
                    if i < done.len() {
                        assert(nd[i] == done[i]);
                    }
                }
                done = nd;
            }
        }
    }

    /// A bundle with no files.
    pub fn new() -> (r: OsuParser)
        ensures
            r.wf(),
            r@ == Seq::<(Seq<char>, Seq<u8>)>::empty(),
    {
        let r = OsuParser { files: Vec::new() };
        assert(r@ =~= Seq::<(Seq<char>, Seq<u8>)>::empty());
        r
    }

    /// Adds a file; a file of the same name already in the bundle has its bytes replaced.
    pub fn add_file(&mut self, name: String, bytes: Vec<u8>)
        requires
            old(self).wf(),
        ensures
            final(self).wf(),
            lookup(old(self)@, name@) is None ==> final(self)@ == old(self)@.push((name@, bytes@)),
            lookup(old(self)@, name@) is Some ==> final(self)@.len() == old(self)@.len() && forall|
                i: int,
            |
                0 <= i < old(self)@.len() ==> #[trigger] final(self)@[i] == if old(self)@[i].0
                    == name@ {
                    (name@, bytes@)
                } else {
                    old(self)@[i]
                },
    {
        let ghost before = self@;
        match self.find(name.as_str()) {
            Some(i) => {
                let ghost nv = name@;
                let ghost bv = bytes@;
                self.files.set(i, (name, bytes));
                assert(self@ =~= before.update(i as int, (nv, bv)));
                assert forall|k: int| 0 <= k < before.len() && k != i implies before[k].0 != nv by {
                    if k < i {
                        assert(before[k].0 != before[i as int].0);
                    } else {
                        assert(before[i as int].0 != before[k].0);
                    }
                }
            },
            None => {
                let ghost nv = name@;
                let ghost bv = bytes@;
                self.files.push((name, bytes));
                assert(self@ =~= before.push((nv, bv)));
            },
        }
    }

    fn find(&self, name: &str) -> (r: Option<usize>)
        ensures
            match lookup(self@, name@) {
                Some(b) => r matches Some(i) && i < self@.len() && self.files@[i as int].1@ == b
                    && self@[i as int].0 == name@,
                None => r is None && forall|k: int| 0 <= k < self@.len() ==> (#[trigger] self@[k]).0 != name@,
            },
    {
        let mut i: usize = 0;
        assert(self@.subrange(0, self@.len() as int) =~= self@);
        while i < self.files.len()
            invariant
                i <= self.files@.len(),
                self@.len() == self.files@.len(),
                lookup(self@, name@) == lookup(self@.subrange(i as int, self@.len() as int), name@),
                forall|k: int| 0 <= k < i ==> (#[trigger] self@[k]).0 != name@,
            decreases self.files@.len() - i,
        {
            let ghost rest = self@.subrange(i as int, self@.len() as int);
            assert(rest.drop_first() =~= self@.subrange(i + 1, self@.len() as int));
            assert(rest[0] == (self.files@[i as int].0@, self.files@[i as int].1@));
            let t = crate::text::chars_of(self.files[i].0.as_str());
            if same_text(t.as_slice(), name) {
                return Some(i);
            }
            i += 1;
        }
        None
    }

    /// The names of the chart documents in the bundle, in order.
    pub fn chart_names(&self) -> (r: Vec<String>)
        ensures
            r@.map_values(|n: String| n@) == chart_names_of(self@),
    {
        let mut r: Vec<String> = Vec::new();
        let mut i: usize = 0;
        assert(self@.subrange(0, 0) =~= Seq::<(Seq<char>, Seq<u8>)>::empty());
        assert(r@.map_values(|n: String| n@) =~= Seq::<Seq<char>>::empty());
        while i < self.files.len()
            invariant
                i <= self.files@.len(),
                r@.map_values(|n: String| n@) == chart_names_of(self@.subrange(0, i as int)),
            decreases self.files@.len() - i,
        {
            let ghost sub = self@.subrange(0, i + 1);
            assert(sub.drop_last() =~= self@.subrange(0, i as int));
            assert(sub.last().0 == self.files@[i as int].0@);
            let t = crate::text::chars_of(self.files[i].0.as_str());
            let n = t.len();
            if n >= 4 && t[n - 4] == '.' && t[n - 3] == 'o' && t[n - 2] == 's' && t[n - 1] == 'u' {
                assert(t@.subrange(n - 4, n as int) =~= chart_suffix());
                let ghost before = r@;
                r.push(self.files[i].0.clone());
                assert(r@.map_values(|n: String| n@) =~= before.map_values(|n: String| n@).push(
                    self.files@[i as int].0@,
                ));
            } else {
                assert(!is_chart_name(t@) ) by {
                    if n >= 4 {
                        assert(t@.subrange(n - 4, n as int)[0] == t@[n - 4]);
                        assert(t@.subrange(n - 4, n as int)[1] == t@[n - 3]);
                        assert(t@.subrange(n - 4, n as int)[2] == t@[n - 2]);
                        assert(t@.subrange(n - 4, n as int)[3] == t@[n - 1]);
                    }
                }
            }
            i += 1;
        }
        assert(self@.subrange(0, i as int) =~= self@);
        r
    }

    /// Decodes the chart document named `name` and attaches the audio file that its General
    /// section names. A missing document, text that is not UTF-8 and missing audio are
    /// `Message` errors; a document that does not decode gives its own error.
    pub fn from_osu(&self, name: &str) -> (r: Result<Difficulty, Error>)
        ensures
            lookup(self@, name@) is None ==> r matches Err(Error::Message(_)),
            lookup(self@, name@) matches Some(b) && !vstd::utf8::valid_utf8(b) ==> r matches Err(
                Error::Message(_),
            ),
            lookup(self@, name@) is Some && vstd::utf8::valid_utf8(lookup(self@, name@)->0) ==> ({
                let b = lookup(self@, name@)->0;
                let lines = crate::scanner::content_lines(vstd::utf8::decode_utf8(b));
                &&& r is Ok <==> document_decodes(lines) && lookup(
                    self@,
                    general_audio(lines),
                ) is Some
                &&& r matches Ok(d) ==> d.version == version_value(lines[0])->0 && records_fit(
                    d,
                    lines,
                    section_starts(lines, 1)->0,
                ) && d.audio_bytes@ == lookup(self@, general_audio(lines))->0
                &&& !document_decodes(lines) ==> (r matches Err(e) && document_fault(lines) matches Some(
                    f,
                ) && reports(e, f))
                &&& document_decodes(lines) && lookup(self@, general_audio(lines)) is None ==> (
                r matches Err(Error::Message(m)) && m@ == missing_audio_reason())
            }),
    {
        let i = match self.find(name) {
            Some(i) => i,
            None => {
                return Err(Error::Message(String::from_str("Chart document is not in the bundle")));
            },
        };
        let text = match utf8_text(copy_bytes(&self.files[i].1)) {
            Some(t) => t,
            None => {
                return Err(Error::Message(String::from_str("Chart document is not UTF-8 text")));
            },
        };
        let mut d = Self::parse_difficulty(text.as_str())?;
        match self.find(d.general.audio_filename.as_str()) {
            Some(j) => {
                d.audio_bytes = copy_bytes(&self.files[j].1);
                Ok(d)
            },
            None => Err(Error::Message(String::from_str("Failed to retrieve audio from osz"))),
        }
    }
}

} // verus!
