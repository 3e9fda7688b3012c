//! The `key: value` sections: which keys each one knows, how each value decodes, and the
//! record that a run of pairs gives.
use vstd::prelude::*;
use vstd::string::StrSliceExecFns;
use crate::beatmap::{DifficultySection, EditorSection, Error, GameMode, GeneralSection, MetadataSection};
use crate::fields::{
    bool_reason, collect, first_fault, int_result, lemma_first_fault_at, lemma_first_fault_none,
    mode_reason, mode_value, number_reason, reports, syntax_error, syntax_with, Fault,
};
use crate::number::{
    bool_of_chars, bool_text_value, decimal_of_chars, decimal_text_value, int_of_chars,
    int_text_value, Decimal,
};
use crate::scanner::{kv_split, kv_split_chars, ParseState, Scan};
use crate::text::{split, split_chars, string_of, trim, trim_chars, views};

verus! {

/// The sections whose lines are `key: value` pairs with typed values.
#[derive(Clone, Copy, Debug, PartialEq, Eq, Structural)]
pub enum Table {
    General,
    Editor,
    Metadata,
    Difficulty,
}

/// How a value decodes.
#[derive(Clone, Copy, Debug, PartialEq, Eq, Structural)]
pub enum ValueKind {
    /// The text as it stands.
    Text,
    /// A 32-bit integer.
    Int,
    /// An exact decimal.
    Dec,
    /// An integer read as a flag.
    Flag,
    /// A game mode code.
    Mode,
    /// Integers separated by commas, each trimmed.
    IntList,
    /// Words separated by single spaces, each trimmed.
    Words,
}

pub open spec fn keys_of(t: Table) -> Seq<Seq<char>> {
    match t {
        Table::General => seq![
            "AudioFilename"@,
            "AudioLeadIn"@,
            "PreviewTime"@,
            "Countdown"@,
            "SampleSet"@,
            "StackLeniency"@,
            "Mode"@,
            "LetterboxInBreaks"@,
            "WidescreenStoryboard"@,
            "StoryFireInFront"@,
            "SpecialStyle"@,
            "EpilepsyWarning"@,
        ],
        Table::Editor => seq![
            "Bookmarks"@,
            "DistanceSpacing"@,
            "BeatDivisor"@,
            "GridSize"@,
            "TimelineZoom"@,
        ],
        Table::Metadata => seq![
            "Title"@,
            "TitleUnicode"@,
            "Artist"@,
            "ArtistUnicode"@,
            "Creator"@,
            "Version"@,
            "Source"@,
            "Tags"@,
            "BeatmapID"@,
            "BeatmapSetID"@,
        ],
        Table::Difficulty => seq![
            "HPDrainRate"@,
            "CircleSize"@,
            "OverallDifficulty"@,
            "ApproachRate"@,
            "SliderMultiplier"@,
            "SliderTickRate"@,
        ],
    }
}

pub open spec fn value_kind(t: Table, j: int) -> ValueKind {
    match t {
        Table::General => if j == 0 || j == 4 {
            ValueKind::Text
        } else if j == 1 || j == 2 {
            ValueKind::Int
        } else if j == 5 {
            ValueKind::Dec
        } else if j == 6 {
            ValueKind::Mode
        } else {
            ValueKind::Flag
        },
        Table::Editor => if j == 0 {
            ValueKind::IntList
        } else if j == 1 || j == 4 {
            ValueKind::Dec
        } else {
            ValueKind::Int
        },
        Table::Metadata => if j <= 6 {
            ValueKind::Text
        } else if j == 7 {
            ValueKind::Words
        } else {
            ValueKind::Int
        },
        Table::Difficulty => ValueKind::Dec,
    }
}

/// The integers of a comma-separated list, each piece trimmed, or the first fault.
pub open spec fn int_list_result(v: Seq<char>) -> Result<Seq<i32>, crate::fields::Fault> {
    collect(split(v, ',').map_values(|q: Seq<char>| int_result(trim(q))))
}

/// The words of a space-separated list, each trimmed.
pub open spec fn words_of(v: Seq<char>) -> Seq<Seq<char>> {
    split(v, ' ').map_values(|q: Seq<char>| trim(q))
}

/// Whether `v` decodes as a value of kind `k`.
pub open spec fn decodes(k: ValueKind, v: Seq<char>) -> bool {
    match k {
        ValueKind::Text => true,
        ValueKind::Words => true,
        ValueKind::Int => int_text_value(v) is Some,
        ValueKind::Dec => decimal_text_value(v) is Some,
        ValueKind::Flag => bool_text_value(v) is Some,
        ValueKind::Mode => mode_value(v) is Some,
        ValueKind::IntList => int_list_result(v) is Ok,
    }
}

/// The first index at or after `i` where `k` stands in `keys`.
pub open spec fn index_from(k: Seq<char>, keys: Seq<Seq<char>>, i: int) -> Option<int>
    decreases keys.len() - i,
{
    if i < 0 || i >= keys.len() {
        None
    } else if keys[i] == k {
        Some(i)
    } else {
        index_from(k, keys, i + 1)
    }
}

pub open spec fn key_index(k: Seq<char>, keys: Seq<Seq<char>>) -> Option<int> {
    index_from(k, keys, 0)
}

/// The value of the last pair whose key is the `j`-th of `keys`.
pub open spec fn last_value(
    pairs: Seq<(Seq<char>, Seq<char>)>,
    keys: Seq<Seq<char>>,
    j: int,
) -> Option<Seq<char>>
    decreases pairs.len(),
{
    if pairs.len() == 0 {
        None
    } else if key_index(pairs.last().0, keys) == Some(j) {
        Some(pairs.last().1)
    } else {
        last_value(pairs.drop_last(), keys, j)
    }
}

/// Whether a pair's value decodes as its key asks; a pair with an unknown key is passed over.
pub open spec fn pair_decodes(p: (Seq<char>, Seq<char>), t: Table) -> bool {
    match key_index(p.0, keys_of(t)) {
        Some(j) => decodes(value_kind(t, j), p.1),
        None => true,
    }
}

/// The reason given for a value of kind `k` that does not decode.
pub open spec fn kind_reason(k: ValueKind) -> Seq<char> {
    match k {
        ValueKind::Flag => bool_reason(),
        ValueKind::Mode => mode_reason(),
        _ => number_reason(),
    }
}

/// The fault of a pair whose key is known and whose value does not decode.
pub open spec fn pair_fault(p: (Seq<char>, Seq<char>), t: Table) -> Option<Fault> {
    match key_index(p.0, keys_of(t)) {
        Some(j) => if decodes(value_kind(t, j), p.1) {
            None
        } else {
            Some(Fault::Invalid(kind_reason(value_kind(t, j))))
        },
        None => None,
    }
}

pub open spec fn pair_faults(pairs: Seq<(Seq<char>, Seq<char>)>, t: Table) -> Seq<Option<Fault>> {
    pairs.map_values(|p: (Seq<char>, Seq<char>)| pair_fault(p, t))
}

pub proof fn lemma_pairs_no_fault(pairs: Seq<(Seq<char>, Seq<char>)>, t: Table)
    requires
        pairs_decode(pairs, t),
    ensures
        first_fault(pair_faults(pairs, t)) is None,
{
    let fs = pair_faults(pairs, t);
    assert forall|i: int| 0 <= i < fs.len() implies (#[trigger] fs[i]) is None by {
        assert(pair_decodes(pairs[i], t));
    }
    lemma_first_fault_none(fs);
}

/// Whether every pair with a known key has a value that decodes.
pub open spec fn pairs_decode(pairs: Seq<(Seq<char>, Seq<char>)>, t: Table) -> bool {
    forall|i: int| 0 <= i < pairs.len() ==> pair_decodes(#[trigger] pairs[i], t)
}

pub proof fn lemma_pairs_end_bounds(lines: Seq<Seq<char>>, i: int)
    requires
        0 <= i <= lines.len(),
    ensures
        i <= pairs_end(lines, i) <= lines.len(),
    decreases lines.len() - i,
{
    if i < lines.len() && kv_split(lines[i]) is Some {
        lemma_pairs_end_bounds(lines, i + 1);
    }
}

/// A pair that fails to decode before the end of the run makes the run fail.
pub proof fn lemma_run_fails(lines: Seq<Seq<char>>, from: int, n: int, t: Table)
    requires
        0 <= from <= n <= lines.len(),
        pairs_end(lines, from) == pairs_end(lines, n),
        !pairs_decode(pairs_of(lines, from, n), t),
    ensures
        !pairs_decode(pairs_of(lines, from, pairs_end(lines, from)), t),
{
    lemma_pairs_end_bounds(lines, n);
    let q = pairs_end(lines, from);
    let a = pairs_of(lines, from, n);
    let b = pairs_of(lines, from, q);
    let i = choose|i: int| 0 <= i < a.len() && !pair_decodes(#[trigger] a[i], t);
    assert(a[i] == b[i]);
}

/// A pair that fails to decode, just read, makes the run fail.
pub proof fn lemma_pair_fails(
    lines: Seq<Seq<char>>,
    from: int,
    n: int,
    before: Seq<(Seq<char>, Seq<char>)>,
    x: (Seq<char>, Seq<char>),
    t: Table,
)
    requires
        0 <= from <= n <= lines.len(),
        pairs_end(lines, from) == pairs_end(lines, n),
        pairs_of(lines, from, n) == before.push(x),
        pairs_decode(before, t),
        !pair_decodes(x, t),
    ensures
        !pairs_decode(pairs_of(lines, from, pairs_end(lines, from)), t),
        first_fault(pair_faults(pairs_of(lines, from, pairs_end(lines, from)), t)) == pair_fault(
            x,
            t,
        ),
{
    assert(before.push(x)[before.len() as int] == x);
    lemma_run_fails(lines, from, n, t);
    lemma_pairs_end_bounds(lines, n);
    let q = pairs_end(lines, from);
    let full = pairs_of(lines, from, q);
    let fs = pair_faults(full, t);
    let i = before.len() as int;
    assert(pairs_of(lines, from, n) =~= full.subrange(0, n - from));
    assert forall|k: int| 0 <= k < i implies (#[trigger] fs[k]) is None by {
        assert(full[k] == pairs_of(lines, from, n)[k]);
        assert(before.push(x)[k] == before[k]);
        assert(pair_decodes(before[k], t));
    }
    assert(full[i] == pairs_of(lines, from, n)[i]);
    lemma_first_fault_at(fs, i);
}

/// The first index at or after `i` whose line is not a pair (or the number of lines).
pub open spec fn pairs_end(lines: Seq<Seq<char>>, i: int) -> int
    decreases lines.len() - i,
{
    if i < 0 || i >= lines.len() {
        lines.len() as int
    } else if kv_split(lines[i]) is None {
        i
    } else {
        pairs_end(lines, i + 1)
    }
}

/// The pairs of lines `from..to`.
pub open spec fn pairs_of(lines: Seq<Seq<char>>, from: int, to: int) -> Seq<(Seq<char>, Seq<char>)> {
    lines.subrange(from, to).map_values(|l: Seq<char>| kv_split(l)->0)
}

/// Whether the scanner holds line `q`, or has run out of lines when `q` is past the end.
pub open spec fn holds_at(sc: Scan, q: int) -> bool {
    if 0 <= q < sc.lines.len() {
        sc.current == Some(q as nat) && sc.next == q + 1
    } else {
        q == sc.lines.len() && sc.current is None && sc.next == sc.lines.len()
    }
}

pub open spec fn text_or_empty(o: Option<Seq<char>>) -> Seq<char> {
    match o {
        Some(v) => v,
        None => Seq::empty(),
    }
}

pub open spec fn int_or(o: Option<Seq<char>>, d: i32) -> i32 {
    match o {
        Some(v) => int_text_value(v)->0,
        None => d,
    }
}

pub open spec fn dec_or(o: Option<Seq<char>>, d: Decimal) -> Decimal {
    match o {
        Some(v) => decimal_text_value(v)->0,
        None => d,
    }
}

pub open spec fn flag_or(o: Option<Seq<char>>, d: bool) -> bool {
    match o {
        Some(v) => bool_text_value(v)->0,
        None => d,
    }
}

pub open spec fn mode_or(o: Option<Seq<char>>, d: GameMode) -> GameMode {
    match o {
        Some(v) => mode_value(v)->0,
        None => d,
    }
}

pub open spec fn int_list_or_empty(o: Option<Seq<char>>) -> Seq<i32> {
    match o {
        Some(v) => int_list_result(v)->Ok_0,
        None => Seq::empty(),
    }
}

pub open spec fn words_or_empty(o: Option<Seq<char>>) -> Seq<Seq<char>> {
    match o {
        Some(v) => words_of(v),
        None => Seq::empty(),
    }
}

pub open spec fn zero() -> Decimal {
    Decimal { mantissa: 0, scale: 0 }
}

/// The General record that `pairs` give: each field from the last pair with its key, or its
/// default.
pub open spec fn general_fits(s: GeneralSection, pairs: Seq<(Seq<char>, Seq<char>)>) -> bool {
    let k = keys_of(Table::General);
    &&& s.audio_filename@ == text_or_empty(last_value(pairs, k, 0))
    &&& s.audio_lead_in == int_or(last_value(pairs, k, 1), 0)
    &&& s.preview_time == int_or(last_value(pairs, k, 2), 0)
    &&& s.countdown == flag_or(last_value(pairs, k, 3), false)
    &&& s.sample_set@ == text_or_empty(last_value(pairs, k, 4))
    &&& s.stack_leniency == dec_or(last_value(pairs, k, 5), zero())
    &&& s.game_mode == mode_or(last_value(pairs, k, 6), GameMode::Osu)
    &&& s.letterbox_in_breaks == flag_or(last_value(pairs, k, 7), false)
    &&& s.widescreen_storyboard == flag_or(last_value(pairs, k, 8), false)
    &&& s.story_fire_in_front == flag_or(last_value(pairs, k, 9), false)
    &&& s.special_style == flag_or(last_value(pairs, k, 10), false)
    &&& s.epilepsy_warning == flag_or(last_value(pairs, k, 11), false)
    &&& !s.use_skin_sprites
}

/// The Editor record that `pairs` give; a field without a pair is zero.
pub open spec fn editor_fits(s: EditorSection, pairs: Seq<(Seq<char>, Seq<char>)>) -> bool {
    let k = keys_of(Table::Editor);
    &&& s.bookmarks@ == int_list_or_empty(last_value(pairs, k, 0))
    &&& s.distance_spacing == dec_or(last_value(pairs, k, 1), zero())
    &&& s.beat_divisor == int_or(last_value(pairs, k, 2), 0)
    &&& s.grid_size == int_or(last_value(pairs, k, 3), 0)
    &&& s.timeline_zoom == dec_or(last_value(pairs, k, 4), zero())
}

/// The Metadata record that `pairs` give.
pub open spec fn metadata_fits(s: MetadataSection, pairs: Seq<(Seq<char>, Seq<char>)>) -> bool {
    let k = keys_of(Table::Metadata);
    &&& s.title@ == text_or_empty(last_value(pairs, k, 0))
    &&& s.title_unicode@ == text_or_empty(last_value(pairs, k, 1))
    &&& s.artist@ == text_or_empty(last_value(pairs, k, 2))
    &&& s.artist_unicode@ == text_or_empty(last_value(pairs, k, 3))
    &&& s.creator@ == text_or_empty(last_value(pairs, k, 4))
    &&& s.version@ == text_or_empty(last_value(pairs, k, 5))
    &&& s.source@ == text_or_empty(last_value(pairs, k, 6))
    &&& s.tags@.map_values(|w: String| w@) == words_or_empty(last_value(pairs, k, 7))
    &&& s.beatmap_id == int_or(last_value(pairs, k, 8), 0)
    &&& s.beatmap_set_id == int_or(last_value(pairs, k, 9), 0)
}

/// The Difficulty record that `pairs` give.
pub open spec fn difficulty_fits(s: DifficultySection, pairs: Seq<(Seq<char>, Seq<char>)>) -> bool {
    let k = keys_of(Table::Difficulty);
    &&& s.hp_drain_rate == dec_or(last_value(pairs, k, 0), zero())
    &&& s.circle_size == dec_or(last_value(pairs, k, 1), zero())
    &&& s.overall_difficulty == dec_or(last_value(pairs, k, 2), zero())
    &&& s.approach_rate == dec_or(last_value(pairs, k, 3), zero())
    &&& s.slider_multiplier == dec_or(last_value(pairs, k, 4), zero())
    &&& s.slider_tick_rate == dec_or(last_value(pairs, k, 5), zero())
}

pub proof fn lemma_last_value_push(
    pairs: Seq<(Seq<char>, Seq<char>)>,
    x: (Seq<char>, Seq<char>),
    keys: Seq<Seq<char>>,
)
    ensures
        forall|j: int|
            #[trigger] last_value(pairs.push(x), keys, j) == if key_index(x.0, keys) == Some(j) {
                Some(x.1)
            } else {
                last_value(pairs, keys, j)
            },
{
    assert(pairs.push(x).drop_last() =~= pairs);
}

pub proof fn lemma_pairs_of_push(lines: Seq<Seq<char>>, from: int, to: int)
    requires
        0 <= from <= to < lines.len(),
    ensures
        pairs_of(lines, from, to + 1) == pairs_of(lines, from, to).push(kv_split(lines[to])->0),
{
    assert(pairs_of(lines, from, to + 1) =~= pairs_of(lines, from, to).push(kv_split(lines[to])->0));
}

/// The `j`-th key of a table.
fn key_text(t: Table, j: usize) -> (r: &'static str)
    requires
        j < keys_of(t).len(),
    ensures
        r@ == keys_of(t)[j as int],
{
    match t {
        Table::General => match j {
            0 => "AudioFilename",
            1 => "AudioLeadIn",
            2 => "PreviewTime",
            3 => "Countdown",
            4 => "SampleSet",
            5 => "StackLeniency",
            6 => "Mode",
            7 => "LetterboxInBreaks",
            8 => "WidescreenStoryboard",
            9 => "StoryFireInFront",
            10 => "SpecialStyle",
            _ => "EpilepsyWarning",
        },
        Table::Editor => match j {
            0 => "Bookmarks",
            1 => "DistanceSpacing",
            2 => "BeatDivisor",
            3 => "GridSize",
            _ => "TimelineZoom",
        },
        Table::Metadata => match j {
            0 => "Title",
            1 => "TitleUnicode",
            2 => "Artist",
            3 => "ArtistUnicode",
            4 => "Creator",
            5 => "Version",
            6 => "Source",
            7 => "Tags",
            8 => "BeatmapID",
            _ => "BeatmapSetID",
        },
        Table::Difficulty => match j {
            0 => "HPDrainRate",
            1 => "CircleSize",
            2 => "OverallDifficulty",
            3 => "ApproachRate",
            4 => "SliderMultiplier",
            _ => "SliderTickRate",
        },
    }
}

fn key_count(t: Table) -> (r: usize)
    ensures
        r == keys_of(t).len(),
{
    match t {
        Table::General => 12,
        Table::Editor => 5,
        Table::Metadata => 10,
        Table::Difficulty => 6,
    }
}

/// Whether the characters `k` spell `lit`.
pub fn same_text(k: &[char], lit: &str) -> (r: bool)
    ensures
        r == (k@ == lit@),
{
    let n = lit.unicode_len();
    if n != k.len() {
        return false;
    }
    let mut i: usize = 0;
    while i < n
        invariant
            i <= n == k@.len() == lit@.len(),
            k@.subrange(0, i as int) == lit@.subrange(0, i as int),
        decreases n - i,
    {
        if k[i] != lit.get_char(i) {
            assert(k@[i as int] != lit@[i as int]);
            return false;
        }
        i += 1;
        assert(k@.subrange(0, i as int) =~= lit@.subrange(0, i as int));
    }
    assert(k@ =~= k@.subrange(0, n as int));
    assert(lit@ =~= lit@.subrange(0, n as int));
    true
}

/// Where the key `k` stands in the table of `t`.
pub fn find_key(k: &[char], t: Table) -> (r: Option<usize>)
    ensures
        r matches Some(i) ==> key_index(k@, keys_of(t)) == Some(i as int) && i < keys_of(t).len(),
        r is None ==> key_index(k@, keys_of(t)) is None,
{
    let n = key_count(t);
    let mut j: usize = 0;
    while j < n
        invariant
            j <= n == keys_of(t).len(),
            key_index(k@, keys_of(t)) == index_from(k@, keys_of(t), j as int),
        decreases n - j,
    {
        if same_text(k, key_text(t, j)) {
            return Some(j);
        }
        j += 1;
    }
    None
}

/// Reads the next line as a pair; `None` when there is no next line or it is not a pair.
pub(crate) fn next_pair(state: &mut ParseState, Ghost(from): Ghost<int>) -> (r: Option<(Vec<char>, Vec<char>)>)
    requires
        old(state).wf(),
        0 <= from <= old(state)@.next,
        pairs_end(old(state)@.lines, from) == pairs_end(old(state)@.lines, old(state)@.next as int),
    ensures
        final(state).wf(),
        final(state)@.lines == old(state)@.lines,
        match r {
            Some((k, v)) => {
                &&& old(state)@.next < old(state)@.lines.len()
                &&& final(state)@.next == old(state)@.next + 1
                &&& kv_split(old(state)@.lines[old(state)@.next as int]) == Some((k@, v@))
                &&& pairs_of(final(state)@.lines, from, final(state)@.next as int) == pairs_of(
                    old(state)@.lines,
                    from,
                    old(state)@.next as int,
                ).push((k@, v@))
                &&& pairs_end(old(state)@.lines, from) == pairs_end(
                    old(state)@.lines,
                    final(state)@.next as int,
                )
            },
            None => holds_at(final(state)@, pairs_end(old(state)@.lines, from)) && pairs_end(
                old(state)@.lines,
                from,
            ) == old(state)@.next,
        },
{
    let ghost lines = state@.lines;
    let ghost n0 = state@.next as int;
    match state.advance() {
        Some(i) => {
            let l = state.line(i);
            match kv_split_chars(l.as_slice()) {
                Some((k, v)) => {
                    proof {
                        lemma_pairs_of_push(lines, from, i as int);
                        assert(pairs_end(lines, n0) == pairs_end(lines, n0 + 1));
                    }
                    Some((k, v))
                },
                None => {
                    assert(pairs_end(lines, n0) == n0);
                    None
                },
            }
        },
        None => {
            assert(pairs_end(lines, n0) == lines.len());
            None
        },
    }
}

fn text_value(v: &Vec<char>) -> (r: String)
    ensures
        r@ == v@,
{
    string_of(v.as_slice())
}

fn int_value(v: &Vec<char>) -> (r: Result<i32, Error>)
    ensures
        r matches Ok(n) ==> int_text_value(v@) == Some(n),
        r is Err ==> int_text_value(v@) is None,
        r matches Err(e) ==> syntax_with(e, number_reason()),
{
    match int_of_chars(v.as_slice()) {
        Some(n) => Ok(n),
        None => Err(syntax_error("Unable to parse number")),
    }
}

fn dec_value(v: &Vec<char>) -> (r: Result<Decimal, Error>)
    ensures
        r matches Ok(n) ==> decimal_text_value(v@) == Some(n),
        r is Err ==> decimal_text_value(v@) is None,
        r matches Err(e) ==> syntax_with(e, number_reason()),
{
    match decimal_of_chars(v.as_slice()) {
        Some(n) => Ok(n),
        None => Err(syntax_error("Unable to parse number")),
    }
}

fn flag_value(v: &Vec<char>) -> (r: Result<bool, Error>)
    ensures
        r matches Ok(n) ==> bool_text_value(v@) == Some(n),
        r is Err ==> bool_text_value(v@) is None,
        r matches Err(e) ==> syntax_with(e, bool_reason()),
{
    match bool_of_chars(v.as_slice()) {
        Some(n) => Ok(n),
        None => Err(syntax_error("Could not parse bool")),
    }
}

fn mode_of(v: &Vec<char>) -> (r: Result<GameMode, Error>)
    ensures
        r matches Ok(n) ==> mode_value(v@) == Some(n),
        r is Err ==> mode_value(v@) is None,
        r matches Err(e) ==> syntax_with(e, mode_reason()),
{
    match crate::fields::mode_in(v.as_slice()) {
        Ok(m) => Ok(m),
        Err(e) => Err(e),
    }
}

fn int_list_value(v: &Vec<char>) -> (r: Result<Vec<i32>, Error>)
    ensures
        r matches Ok(n) ==> int_list_result(v@) == Ok::<Seq<i32>, crate::fields::Fault>(n@),
        r is Err ==> int_list_result(v@) is Err,
        r matches Err(e) ==> syntax_with(e, number_reason()),
{
    let qs = split_chars(v.as_slice(), ',');
    let ghost rs = views(qs@).map_values(|q: Seq<char>| int_result(trim(q)));
    assert(rs =~= split(v@, ',').map_values(|q: Seq<char>| int_result(trim(q))));
    assert(int_list_result(v@) == collect(rs));
    let mut out: Vec<i32> = Vec::new();
    let mut i: usize = 0;
    assert(rs.subrange(0, 0) =~= Seq::<Result<i32, crate::fields::Fault>>::empty());
    while i < qs.len()
        invariant
            i <= qs@.len(),
            rs == views(qs@).map_values(|q: Seq<char>| int_result(trim(q))),
            int_list_result(v@) == collect(rs),
            collect(rs.subrange(0, i as int)) == Ok::<Seq<i32>, crate::fields::Fault>(out@),
        decreases qs@.len() - i,
    {
        let ghost p = rs.subrange(0, i + 1);
        proof {
            assert(p.drop_last() =~= rs.subrange(0, i as int));
            assert(p.last() == int_result(trim(qs@[i as int]@)));
        }
        let t = trim_chars(qs[i].as_slice());
        match int_of_chars(t.as_slice()) {
            Some(c) => {
                out.push(c);
            },
            None => {
                proof {
                    crate::fields::lemma_collect_prefix_fault(rs, i + 1);
                }
                return Err(syntax_error("Unable to parse number"));
            },
        }
        i += 1;
    }
    assert(rs.subrange(0, i as int) =~= rs);
    Ok(out)
}

fn words_value(v: &Vec<char>) -> (r: Vec<String>)
    ensures
        r@.map_values(|w: String| w@) == words_of(v@),
{
    let qs = split_chars(v.as_slice(), ' ');
    let mut out: Vec<String> = Vec::new();
    let mut i: usize = 0;
    assert(out@.map_values(|w: String| w@) =~= views(qs@).subrange(0, 0).map_values(
        |q: Seq<char>| trim(q),
    ));
    while i < qs.len()
        invariant
            i <= qs@.len(),
            views(qs@) == split(v@, ' '),
            out@.map_values(|w: String| w@) == views(qs@).subrange(0, i as int).map_values(
                |q: Seq<char>| trim(q),
            ),
        decreases qs@.len() - i,
    {
        let t = trim_chars(qs[i].as_slice());
        let w = string_of(t.as_slice());
        let ghost before = out@;
        out.push(w);
        proof {
            assert(out@ == before.push(w));
            assert(views(qs@)[i as int] == qs@[i as int]@);
            assert(out@.map_values(|w: String| w@) =~= before.map_values(|w: String| w@).push(w@));
            assert(views(qs@).subrange(0, i + 1).map_values(|q: Seq<char>| trim(q)) =~= views(
                qs@,
            ).subrange(0, i as int).map_values(|q: Seq<char>| trim(q)).push(trim(qs@[i as int]@)));
        }
        i += 1;
    }
    assert(views(qs@).subrange(0, i as int) =~= views(qs@));
    out
}

/// The run of pairs after the held header, as a General record.
#[verifier::rlimit(100)]
#[verifier::spinoff_prover]
pub fn parse_general(state: &mut ParseState) -> (r: Result<GeneralSection, Error>)
    requires
        old(state).wf(),
        old(state)@.current is Some,
    ensures
        final(state).wf(),
        final(state)@.lines == old(state)@.lines,
        ({
            let lines = old(state)@.lines;
            let from = old(state)@.next as int;
            let q = pairs_end(lines, from);
            let pairs = pairs_of(lines, from, q);
            &&& r is Ok <==> pairs_decode(pairs, Table::General)
            &&& r matches Ok(s) ==> general_fits(s, pairs) && holds_at(final(state)@, q)
            &&& r is Ok ==> first_fault(pair_faults(pairs, Table::General)) is None
            &&& r matches Err(e) ==> (first_fault(pair_faults(pairs, Table::General)) matches Some(f)
                && reports(e, f))
        }),
{
    let ghost lines = state@.lines;
    let ghost from = state@.next as int;
    let mut s = GeneralSection::default();
    assert(pairs_of(lines, from, from) =~= Seq::<(Seq<char>, Seq<char>)>::empty());
    loop
        invariant
            state.wf(),
            state@.lines == lines,
            lines == old(state)@.lines,
            from == old(state)@.next,
            0 <= from <= state@.next,
            pairs_end(lines, from) == pairs_end(lines, state@.next as int),
            pairs_decode(pairs_of(lines, from, state@.next as int), Table::General),
            general_fits(s, pairs_of(lines, from, state@.next as int)),
        decreases lines.len() - state@.next,
    {
        let ghost before = pairs_of(lines, from, state@.next as int);
        match next_pair(state, Ghost(from)) {
            None => {
                proof {
                    let q = pairs_end(lines, from);
                    if q < lines.len() {
                        assert(state@.next == q + 1);
                    }
                    assert(pairs_of(lines, from, q) == before);
                    lemma_pairs_no_fault(before, Table::General);
                }
                return Ok(s);
            },
            Some((k, v)) => {
                let ghost x = (k@, v@);
                proof {
                    lemma_last_value_push(before, x, keys_of(Table::General));
                }
                let idx = find_key(k.as_slice(), Table::General);
                match idx {
                    Some(0) => { s.audio_filename = text_value(&v); },
                    Some(1) => {
                        match int_value(&v) {
                            Ok(n) => { s.audio_lead_in = n; },
                            Err(e) => { proof { lemma_pair_fails(lines, from, state@.next as int, before, x, Table::General); } return Err(e); },
                        }
                    },
                    Some(2) => {
                        match int_value(&v) {
                            Ok(n) => { s.preview_time = n; },
                            Err(e) => { proof { lemma_pair_fails(lines, from, state@.next as int, before, x, Table::General); } return Err(e); },
                        }
                    },
                    Some(3) => {
                        match flag_value(&v) {
                            Ok(n) => { s.countdown = n; },
                            Err(e) => { proof { lemma_pair_fails(lines, from, state@.next as int, before, x, Table::General); } return Err(e); },
                        }
                    },
                    Some(4) => { s.sample_set = text_value(&v); },
                    Some(5) => {
                        match dec_value(&v) {
                            Ok(n) => { s.stack_leniency = n; },
                            Err(e) => { proof { lemma_pair_fails(lines, from, state@.next as int, before, x, Table::General); } return Err(e); },
                        }
                    },
                    Some(6) => {
                        match mode_of(&v) {
                            Ok(n) => { s.game_mode = n; },
                            Err(e) => { proof { lemma_pair_fails(lines, from, state@.next as int, before, x, Table::General); } return Err(e); },
                        }
                    },
                    Some(7) => {
                        match flag_value(&v) {
                            Ok(n) => { s.letterbox_in_breaks = n; },
                            Err(e) => { proof { lemma_pair_fails(lines, from, state@.next as int, before, x, Table::General); } return Err(e); },
                        }
                    },
                    Some(8) => {
                        match flag_value(&v) {
                            Ok(n) => { s.widescreen_storyboard = n; },
                            Err(e) => { proof { lemma_pair_fails(lines, from, state@.next as int, before, x, Table::General); } return Err(e); },
                        }
                    },
                    Some(9) => {
                        match flag_value(&v) {
                            Ok(n) => { s.story_fire_in_front = n; },
                            Err(e) => { proof { lemma_pair_fails(lines, from, state@.next as int, before, x, Table::General); } return Err(e); },
                        }
                    },
                    Some(10) => {
                        match flag_value(&v) {
                            Ok(n) => { s.special_style = n; },
                            Err(e) => { proof { lemma_pair_fails(lines, from, state@.next as int, before, x, Table::General); } return Err(e); },
                        }
                    },
                    Some(_) => {
                        match flag_value(&v) {
                            Ok(n) => { s.epilepsy_warning = n; },
                            Err(e) => { proof { lemma_pair_fails(lines, from, state@.next as int, before, x, Table::General); } return Err(e); },
                        }
                    },
                    None => {},
                }
                proof {
                    let after = before.push(x);
                    assert(pair_decodes(x, Table::General));
                    assert forall|i: int| 0 <= i < after.len() implies pair_decodes(#[trigger] after[i], Table::General) by {
                        if i < before.len() {
                            assert(after[i] == before[i]);
                        }
                    }
                }
            },
        }
    }
}

/// The run of pairs after the held header, as an Editor record; a field without a pair is zero.
#[verifier::rlimit(100)]
#[verifier::spinoff_prover]
pub fn parse_editor(state: &mut ParseState) -> (r: Result<EditorSection, Error>)
    requires
        old(state).wf(),
        old(state)@.current is Some,
    ensures
        final(state).wf(),
        final(state)@.lines == old(state)@.lines,
        ({
            let lines = old(state)@.lines;
            let from = old(state)@.next as int;
            let q = pairs_end(lines, from);
            let pairs = pairs_of(lines, from, q);
            &&& r is Ok <==> pairs_decode(pairs, Table::Editor)
            &&& r matches Ok(s) ==> editor_fits(s, pairs) && holds_at(final(state)@, q)
            &&& r is Ok ==> first_fault(pair_faults(pairs, Table::Editor)) is None
            &&& r matches Err(e) ==> (first_fault(pair_faults(pairs, Table::Editor)) matches Some(f)
                && reports(e, f))
        }),
{
    let ghost lines = state@.lines;
    let ghost from = state@.next as int;
    let mut s = EditorSection {
        bookmarks: Vec::new(),
        distance_spacing: Decimal::whole(0),
        beat_divisor: 0,
        grid_size: 0,
        timeline_zoom: Decimal::whole(0),
    };
    assert(pairs_of(lines, from, from) =~= Seq::<(Seq<char>, Seq<char>)>::empty());
    loop
        invariant
            state.wf(),
            state@.lines == lines,
            lines == old(state)@.lines,
            from == old(state)@.next,
            0 <= from <= state@.next,
            pairs_end(lines, from) == pairs_end(lines, state@.next as int),
            pairs_decode(pairs_of(lines, from, state@.next as int), Table::Editor),
            editor_fits(s, pairs_of(lines, from, state@.next as int)),
        decreases lines.len() - state@.next,
    {
        let ghost before = pairs_of(lines, from, state@.next as int);
        match next_pair(state, Ghost(from)) {
            None => {
                proof {
                    let q = pairs_end(lines, from);
                    if q < lines.len() {
                        assert(state@.next == q + 1);
                    }
                    assert(pairs_of(lines, from, q) == before);
                    lemma_pairs_no_fault(before, Table::Editor);
                }
                return Ok(s);
            },
            Some((k, v)) => {
                let ghost x = (k@, v@);
                proof {
                    lemma_last_value_push(before, x, keys_of(Table::Editor));
                }
                let idx = find_key(k.as_slice(), Table::Editor);
                match idx {
                    Some(0) => {
                        match int_list_value(&v) {
                            Ok(n) => { s.bookmarks = n; },
                            Err(e) => { proof { lemma_pair_fails(lines, from, state@.next as int, before, x, Table::Editor); } return Err(e); },
                        }
                    },
                    Some(1) => {
                        match dec_value(&v) {
                            Ok(n) => { s.distance_spacing = n; },
                            Err(e) => { proof { lemma_pair_fails(lines, from, state@.next as int, before, x, Table::Editor); } return Err(e); },
                        }
                    },
                    Some(2) => {
                        match int_value(&v) {
                            Ok(n) => { s.beat_divisor = n; },
                            Err(e) => { proof { lemma_pair_fails(lines, from, state@.next as int, before, x, Table::Editor); } return Err(e); },
                        }
                    },
                    Some(3) => {
                        match int_value(&v) {
                            Ok(n) => { s.grid_size = n; },
                            Err(e) => { proof { lemma_pair_fails(lines, from, state@.next as int, before, x, Table::Editor); } return Err(e); },
                        }
                    },
                    Some(4) => {
                        match dec_value(&v) {
                            Ok(n) => { s.timeline_zoom = n; },
                            Err(e) => { proof { lemma_pair_fails(lines, from, state@.next as int, before, x, Table::Editor); } return Err(e); },
                        }
                    },
                    _ => {},
                }
                proof {
                    let after = before.push(x);
                    assert(pair_decodes(x, Table::Editor));
                    assert forall|i: int| 0 <= i < after.len() implies pair_decodes(#[trigger] after[i], Table::Editor) by {
                        if i < before.len() {
                            assert(after[i] == before[i]);
                        }
                    }
                }
            },
        }
    }
}

/// The run of pairs after the held header, as a Metadata record.
#[verifier::rlimit(100)]
#[verifier::spinoff_prover]
pub fn parse_metadata(state: &mut ParseState) -> (r: Result<MetadataSection, Error>)
    requires
        old(state).wf(),
        old(state)@.current is Some,
    ensures
        final(state).wf(),
        final(state)@.lines == old(state)@.lines,
        ({
            let lines = old(state)@.lines;
            let from = old(state)@.next as int;
            let q = pairs_end(lines, from);
            let pairs = pairs_of(lines, from, q);
            &&& r is Ok <==> pairs_decode(pairs, Table::Metadata)
            &&& r matches Ok(s) ==> metadata_fits(s, pairs) && holds_at(final(state)@, q)
            &&& r is Ok ==> first_fault(pair_faults(pairs, Table::Metadata)) is None
            &&& r matches Err(e) ==> (first_fault(pair_faults(pairs, Table::Metadata)) matches Some(f)
                && reports(e, f))
        }),
{
    let ghost lines = state@.lines;
    let ghost from = state@.next as int;
    let mut s = MetadataSection::default();
    assert(s.tags@.map_values(|w: String| w@) =~= Seq::<Seq<char>>::empty());
    assert(pairs_of(lines, from, from) =~= Seq::<(Seq<char>, Seq<char>)>::empty());
    loop
        invariant
            state.wf(),
            state@.lines == lines,
            lines == old(state)@.lines,
            from == old(state)@.next,
            0 <= from <= state@.next,
            pairs_end(lines, from) == pairs_end(lines, state@.next as int),
            pairs_decode(pairs_of(lines, from, state@.next as int), Table::Metadata),
            metadata_fits(s, pairs_of(lines, from, state@.next as int)),
        decreases lines.len() - state@.next,
    {
        let ghost before = pairs_of(lines, from, state@.next as int);
        match next_pair(state, Ghost(from)) {
            None => {
                proof {
                    let q = pairs_end(lines, from);
                    if q < lines.len() {
                        assert(state@.next == q + 1);
                    }
                    assert(pairs_of(lines, from, q) == before);
                    lemma_pairs_no_fault(before, Table::Metadata);
                }
                return Ok(s);
            },
            Some((k, v)) => {
                let ghost x = (k@, v@);
                proof {
                    lemma_last_value_push(before, x, keys_of(Table::Metadata));
                }
                let idx = find_key(k.as_slice(), Table::Metadata);
                match idx {
                    Some(0) => { s.title = text_value(&v); },
                    Some(1) => { s.title_unicode = text_value(&v); },
                    Some(2) => { s.artist = text_value(&v); },
                    Some(3) => { s.artist_unicode = text_value(&v); },
                    Some(4) => { s.creator = text_value(&v); },
                    Some(5) => { s.version = text_value(&v); },
                    Some(6) => { s.source = text_value(&v); },
                    Some(7) => { s.tags = words_value(&v); },
                    Some(8) => {
                        match int_value(&v) {
                            Ok(n) => { s.beatmap_id = n; },
                            Err(e) => { proof { lemma_pair_fails(lines, from, state@.next as int, before, x, Table::Metadata); } return Err(e); },
                        }
                    },
                    Some(9) => {
                        match int_value(&v) {
                            Ok(n) => { s.beatmap_set_id = n; },
                            Err(e) => { proof { lemma_pair_fails(lines, from, state@.next as int, before, x, Table::Metadata); } return Err(e); },
                        }
                    },
                    _ => {},
                }
                proof {
                    let after = before.push(x);
                    assert(pair_decodes(x, Table::Metadata));
                    assert forall|i: int| 0 <= i < after.len() implies pair_decodes(#[trigger] after[i], Table::Metadata) by {
                        if i < before.len() {
                            assert(after[i] == before[i]);
                        }
                    }
                }
            },
        }
    }
}

/// The run of pairs after the held header, as a Difficulty record.
#[verifier::rlimit(100)]
#[verifier::spinoff_prover]
pub fn parse_difficulty_section(state: &mut ParseState) -> (r: Result<DifficultySection, Error>)
    requires
        old(state).wf(),
        old(state)@.current is Some,
    ensures
        final(state).wf(),
        final(state)@.lines == old(state)@.lines,
        ({
            let lines = old(state)@.lines;
            let from = old(state)@.next as int;
            let q = pairs_end(lines, from);
            let pairs = pairs_of(lines, from, q);
            &&& r is Ok <==> pairs_decode(pairs, Table::Difficulty)
            &&& r matches Ok(s) ==> difficulty_fits(s, pairs) && holds_at(final(state)@, q)
            &&& r is Ok ==> first_fault(pair_faults(pairs, Table::Difficulty)) is None
            &&& r matches Err(e) ==> (first_fault(pair_faults(pairs, Table::Difficulty)) matches Some(f)
                && reports(e, f))
        }),
{
    let ghost lines = state@.lines;
    let ghost from = state@.next as int;
    let mut s = DifficultySection::default();
    assert(pairs_of(lines, from, from) =~= Seq::<(Seq<char>, Seq<char>)>::empty());
    loop
        invariant
            state.wf(),
            state@.lines == lines,
            lines == old(state)@.lines,
            from == old(state)@.next,
            0 <= from <= state@.next,
            pairs_end(lines, from) == pairs_end(lines, state@.next as int),
            pairs_decode(pairs_of(lines, from, state@.next as int), Table::Difficulty),
            difficulty_fits(s, pairs_of(lines, from, state@.next as int)),
        decreases lines.len() - state@.next,
    {
        let ghost before = pairs_of(lines, from, state@.next as int);
        match next_pair(state, Ghost(from)) {
            None => {
                proof {
                    let q = pairs_end(lines, from);
                    if q < lines.len() {
                        assert(state@.next == q + 1);
                    }
                    assert(pairs_of(lines, from, q) == before);
                    lemma_pairs_no_fault(before, Table::Difficulty);
                }
                return Ok(s);
            },
            Some((k, v)) => {
                let ghost x = (k@, v@);
                proof {
                    lemma_last_value_push(before, x, keys_of(Table::Difficulty));
                }
                let idx = find_key(k.as_slice(), Table::Difficulty);
                match idx {
                    Some(0) => {
                        match dec_value(&v) {
                            Ok(n) => { s.hp_drain_rate = n; },
                            Err(e) => { proof { lemma_pair_fails(lines, from, state@.next as int, before, x, Table::Difficulty); } return Err(e); },
                        }
                    },
                    Some(1) => {
                        match dec_value(&v) {
                            Ok(n) => { s.circle_size = n; },
                            Err(e) => { proof { lemma_pair_fails(lines, from, state@.next as int, before, x, Table::Difficulty); } return Err(e); },
                        }
                    },
                    Some(2) => {
                        match dec_value(&v) {
                            Ok(n) => { s.overall_difficulty = n; },
                            Err(e) => { proof { lemma_pair_fails(lines, from, state@.next as int, before, x, Table::Difficulty); } return Err(e); },
                        }
                    },
                    Some(3) => {
                        match dec_value(&v) {
                            Ok(n) => { s.approach_rate = n; },
                            Err(e) => { proof { lemma_pair_fails(lines, from, state@.next as int, before, x, Table::Difficulty); } return Err(e); },
                        }
                    },
                    Some(4) => {
                        match dec_value(&v) {
                            Ok(n) => { s.slider_multiplier = n; },
                            Err(e) => { proof { lemma_pair_fails(lines, from, state@.next as int, before, x, Table::Difficulty); } return Err(e); },
                        }
                    },
                    Some(5) => {
                        match dec_value(&v) {
                            Ok(n) => { s.slider_tick_rate = n; },
                            Err(e) => { proof { lemma_pair_fails(lines, from, state@.next as int, before, x, Table::Difficulty); } return Err(e); },
                        }
                    },
                    _ => {},
                }
                proof {
                    let after = before.push(x);
                    assert(pair_decodes(x, Table::Difficulty));
                    assert forall|i: int| 0 <= i < after.len() implies pair_decodes(#[trigger] after[i], Table::Difficulty) by {
                        if i < before.len() {
                            assert(after[i] == before[i]);
                        }
                    }
                }
            },
        }
    }
}

} // verus!
