//! Decoders for single values and comma-separated chart-element records.
use vstd::prelude::*;
use vstd::string::{StrSliceExecFns, StringExecFns};
use crate::beatmap::{
    Colour, Error, GameMode, HitCircle, HitObject, HitObjectExtras, HoldNote, Slider, SliderType,
    Spinner,
};
use crate::number::{
    bool_of_chars, bool_text_value, decimal_of_chars, decimal_text_value, int_of_chars,
    int_text_value, Decimal,
};
use crate::text::{chars_of, lemma_split_nonempty, split, split_chars, string_of, trim, trim_chars, views};

verus! {

/// Why a field failed: it was absent, or present and malformed, with the reason given.
pub enum Fault {
    Missing,
    Invalid(Seq<char>),
}

/// Whether `e` is a syntax error with the reason `m`.
pub open spec fn syntax_with(e: Error, m: Seq<char>) -> bool {
    match e {
        Error::Syntax(s) => s@ == m,
        _ => false,
    }
}

/// Whether `e` is the error that reports `f`.
pub open spec fn reports(e: Error, f: Fault) -> bool {
    match f {
        Fault::Missing => e is Parse,
        Fault::Invalid(m) => syntax_with(e, m),
    }
}

pub open spec fn number_reason() -> Seq<char> {
    "Unable to parse number"@
}

pub open spec fn bool_reason() -> Seq<char> {
    "Could not parse bool"@
}

pub open spec fn mode_reason() -> Seq<char> {
    "Unable to parse gamemode"@
}

pub open spec fn slider_type_reason() -> Seq<char> {
    "Invalid slider type"@
}

pub open spec fn object_kind_reason() -> Seq<char> {
    "Invalid hit object type"@
}

/// Whether a decoder's result agrees with the expected outcome.
pub open spec fn conforms<T>(r: Result<T, Error>, s: Result<T, Fault>) -> bool {
    match (r, s) {
        (Ok(a), Ok(b)) => a == b,
        (Err(e), Err(f)) => reports(e, f),
        _ => false,
    }
}

/// The fault of a result, if it has one.
pub open spec fn fault_of<T>(r: Result<T, Fault>) -> Option<Fault> {
    match r {
        Ok(_) => None,
        Err(f) => Some(f),
    }
}

/// The `i`-th piece, if there is one.
pub open spec fn field(ps: Seq<Seq<char>>, i: int) -> Option<Seq<char>> {
    if 0 <= i < ps.len() {
        Some(ps[i])
    } else {
        None
    }
}

pub open spec fn int_result(t: Seq<char>) -> Result<i32, Fault> {
    match int_text_value(t) {
        Some(v) => Ok(v),
        None => Err(Fault::Invalid(number_reason())),
    }
}

pub open spec fn decimal_result(t: Seq<char>) -> Result<Decimal, Fault> {
    match decimal_text_value(t) {
        Some(v) => Ok(v),
        None => Err(Fault::Invalid(number_reason())),
    }
}

/// The integer in the `i`-th piece.
pub open spec fn int_field(ps: Seq<Seq<char>>, i: int) -> Result<i32, Fault> {
    match field(ps, i) {
        None => Err(Fault::Missing),
        Some(t) => int_result(t),
    }
}

/// The decimal in the `i`-th piece.
pub open spec fn decimal_field(ps: Seq<Seq<char>>, i: int) -> Result<Decimal, Fault> {
    match field(ps, i) {
        None => Err(Fault::Missing),
        Some(t) => decimal_result(t),
    }
}

/// The values of a list of results, or the first fault among them.
pub open spec fn collect<T>(rs: Seq<Result<T, Fault>>) -> Result<Seq<T>, Fault>
    decreases rs.len(),
{
    if rs.len() == 0 {
        Ok(Seq::empty())
    } else {
        match collect(rs.drop_last()) {
            Err(f) => Err(f),
            Ok(v) => match rs.last() {
                Err(f) => Err(f),
                Ok(x) => Ok(v.push(x)),
            },
        }
    }
}

/// A fault in a prefix is the fault of the whole list.
pub proof fn lemma_collect_prefix_fault<T>(rs: Seq<Result<T, Fault>>, i: int)
    requires
        0 <= i <= rs.len(),
        collect(rs.subrange(0, i)) is Err,
    ensures
        collect(rs) == collect(rs.subrange(0, i)),
    decreases rs.len() - i,
{
    if i < rs.len() {
        let p = rs.subrange(0, i + 1);
        assert(p.drop_last() =~= rs.subrange(0, i));
        lemma_collect_prefix_fault(rs, i + 1);
    } else {
        assert(rs.subrange(0, i) =~= rs);
    }
}

/// The first fault in a list of outcomes, if any.
pub open spec fn first_fault(fs: Seq<Option<Fault>>) -> Option<Fault>
    decreases fs.len(),
{
    if fs.len() == 0 {
        None
    } else {
        match first_fault(fs.drop_last()) {
            Some(f) => Some(f),
            None => fs.last(),
        }
    }
}

pub proof fn lemma_first_fault_none(fs: Seq<Option<Fault>>)
    requires
        forall|i: int| 0 <= i < fs.len() ==> (#[trigger] fs[i]) is None,
    ensures
        first_fault(fs) is None,
    decreases fs.len(),
{
    if fs.len() > 0 {
        lemma_first_fault_none(fs.drop_last());
    }
}

/// The first fault is that of the first outcome with one.
pub proof fn lemma_first_fault_at(fs: Seq<Option<Fault>>, i: int)
    requires
        0 <= i < fs.len(),
        forall|k: int| 0 <= k < i ==> (#[trigger] fs[k]) is None,
        fs[i] is Some,
    ensures
        first_fault(fs) == fs[i],
    decreases fs.len(),
{
    let d = fs.drop_last();
    if i == fs.len() - 1 {
        lemma_first_fault_none(d);
    } else {
        lemma_first_fault_at(d, i);
    }
}

/// A two-integer record `x:y`.
pub open spec fn coord_result(t: Seq<char>) -> Result<(i32, i32), Fault> {
    let p = split(t, ':');
    match int_field(p, 0) {
        Err(f) => Err(f),
        Ok(x) => match int_field(p, 1) {
            Err(f) => Err(f),
            Ok(y) => Ok((x, y)),
        },
    }
}

pub open spec fn coords_result(qs: Seq<Seq<char>>) -> Result<Seq<(i32, i32)>, Fault> {
    collect(qs.map_values(|q: Seq<char>| coord_result(q)))
}

pub open spec fn ints_result(qs: Seq<Seq<char>>) -> Result<Seq<i32>, Fault> {
    collect(qs.map_values(|q: Seq<char>| int_result(q)))
}

pub open spec fn slider_type_value(t: Seq<char>) -> Option<SliderType> {
    if t == seq!['L'] {
        Some(SliderType::Linear)
    } else if t == seq!['B'] {
        Some(SliderType::Bezier)
    } else if t == seq!['P'] {
        Some(SliderType::Perfect)
    } else if t == seq!['C'] {
        Some(SliderType::Catmull)
    } else {
        None
    }
}

pub open spec fn mode_value(t: Seq<char>) -> Option<GameMode> {
    if t == seq!['0'] {
        Some(GameMode::Osu)
    } else if t == seq!['1'] {
        Some(GameMode::Taiko)
    } else if t == seq!['2'] {
        Some(GameMode::CTB)
    } else if t == seq!['3'] {
        Some(GameMode::Mania)
    } else {
        None
    }
}

/// A curve record: a kind letter, then `x:y` control points, separated by `|`.
pub open spec fn curve_result(t: Seq<char>) -> Result<(SliderType, Seq<(i32, i32)>), Fault> {
    let p = split(t, '|');
    match slider_type_value(p[0]) {
        None => Err(Fault::Invalid(slider_type_reason())),
        Some(k) => match coords_result(p.drop_first()) {
            Err(f) => Err(f),
            Ok(v) => Ok((k, v)),
        },
    }
}

/// A colour record `r,g,b`.
pub open spec fn colour_result(t: Seq<char>) -> Result<Colour, Fault> {
    let p = split(t, ',');
    match int_field(p, 0) {
        Err(f) => Err(f),
        Ok(r) => match int_field(p, 1) {
            Err(f) => Err(f),
            Ok(g) => match int_field(p, 2) {
                Err(f) => Err(f),
                Ok(b) => Ok(Colour(r, g, b)),
            },
        },
    }
}

/// The four numbers of an extras record `a:b:c:d:name` (pieces trimmed), if it is well formed.
pub open spec fn extras_numbers(t: Seq<char>) -> Option<(i32, i32, i32, i32)> {
    let p = split(t, ':');
    if p.len() >= 5 && int_text_value(trim(p[0])) is Some && int_text_value(trim(p[1])) is Some
        && int_text_value(trim(p[2])) is Some && int_text_value(trim(p[3])) is Some {
        Some(
            (
                int_text_value(trim(p[0]))->0,
                int_text_value(trim(p[1]))->0,
                int_text_value(trim(p[2]))->0,
                int_text_value(trim(p[3]))->0,
            ),
        )
    } else {
        None
    }
}

/// How a positional field decodes.
#[derive(Clone, Copy, Debug, PartialEq, Eq, Structural)]
pub enum FieldKind {
    Int,
    Dec,
    Flag,
    Text,
}

/// The positional records whose pieces are trimmed and read field by field.
#[derive(Clone, Copy, Debug, PartialEq, Eq, Structural)]
pub enum Record {
    /// `sample_set:addition_set:custom_index:sample_volume:filename`.
    Extras,
    /// `offset,ms_per_beat,meter,sample_set,sample_index,volume,inherited,kiai_mode`.
    Marker,
}

pub open spec fn record_kinds(r: Record) -> Seq<FieldKind> {
    match r {
        Record::Extras => seq![
            FieldKind::Int,
            FieldKind::Int,
            FieldKind::Int,
            FieldKind::Int,
            FieldKind::Text,
        ],
        Record::Marker => seq![
            FieldKind::Int,
            FieldKind::Dec,
            FieldKind::Int,
            FieldKind::Text,
            FieldKind::Int,
            FieldKind::Int,
            FieldKind::Flag,
            FieldKind::Flag,
        ],
    }
}

pub open spec fn record_names(r: Record) -> Seq<Seq<char>> {
    match r {
        Record::Extras => seq![
            "sample_set"@,
            "addition_set"@,
            "custom_index"@,
            "sample_volume"@,
            "filename"@,
        ],
        Record::Marker => seq![
            "offset"@,
            "ms_per_beat"@,
            "meter"@,
            "sample_set"@,
            "sample_index"@,
            "volume"@,
            "inherited"@,
            "kiai_mode"@,
        ],
    }
}

pub open spec fn record_struct(r: Record) -> Seq<char> {
    match r {
        Record::Extras => "HitObjectExtras"@,
        Record::Marker => "TimingPoint"@,
    }
}

pub open spec fn field_decodes(k: FieldKind, t: Seq<char>) -> bool {
    match k {
        FieldKind::Int => int_text_value(t) is Some,
        FieldKind::Dec => decimal_text_value(t) is Some,
        FieldKind::Flag => bool_text_value(t) is Some,
        FieldKind::Text => true,
    }
}

pub open spec fn field_reason(k: FieldKind) -> Seq<char> {
    match k {
        FieldKind::Flag => bool_reason(),
        _ => number_reason(),
    }
}

/// The reason given for a field that a record lacks: it names the field and the record.
pub open spec fn missing_field_reason(name: Seq<char>, record: Seq<char>) -> Seq<char> {
    "Unable to read field "@ + name + " into struct "@ + record
}

/// The first fault among the fields `i..` of a record read from the pieces `ps`, each
/// trimmed: a field without a piece, or a piece that does not decode.
pub open spec fn record_fault_from(ps: Seq<Seq<char>>, r: Record, i: int) -> Option<Fault>
    decreases record_kinds(r).len() - i,
{
    if i < 0 || i >= record_kinds(r).len() {
        None
    } else if i >= ps.len() {
        Some(Fault::Invalid(missing_field_reason(record_names(r)[i], record_struct(r))))
    } else if !field_decodes(record_kinds(r)[i], trim(ps[i])) {
        Some(Fault::Invalid(field_reason(record_kinds(r)[i])))
    } else {
        record_fault_from(ps, r, i + 1)
    }
}

pub open spec fn record_fault(ps: Seq<Seq<char>>, r: Record) -> Option<Fault> {
    record_fault_from(ps, r, 0)
}

pub proof fn lemma_record_ok(ps: Seq<Seq<char>>, r: Record, j: int)
    requires
        0 <= j <= record_kinds(r).len(),
        record_fault_from(ps, r, j) is None,
    ensures
        j < record_kinds(r).len() ==> ps.len() >= record_kinds(r).len(),
        forall|i: int|
            j <= i < record_kinds(r).len() ==> field_decodes(
                #[trigger] record_kinds(r)[i],
                trim(ps[i]),
            ),
    decreases record_kinds(r).len() - j,
{
    if j < record_kinds(r).len() {
        lemma_record_ok(ps, r, j + 1);
    }
}

pub proof fn lemma_record_all_ok(ps: Seq<Seq<char>>, r: Record, j: int)
    requires
        0 <= j <= record_kinds(r).len(),
        ps.len() >= record_kinds(r).len(),
        forall|i: int|
            j <= i < record_kinds(r).len() ==> field_decodes(
                #[trigger] record_kinds(r)[i],
                trim(ps[i]),
            ),
    ensures
        record_fault_from(ps, r, j) is None,
    decreases record_kinds(r).len() - j,
{
    if j < record_kinds(r).len() {
        lemma_record_all_ok(ps, r, j + 1);
    }
}

/// Whether `e` is the extras record that `t` denotes.
pub open spec fn extras_is(e: HitObjectExtras, t: Seq<char>) -> bool {
    match extras_numbers(t) {
        None => false,
        Some((a, b, c, d)) => e.sample_set == a && e.addition_set == b && e.custom_index == c
            && e.sample_volume == d && e.filename@ == trim(split(t, ':')[4]),
    }
}

/// Whether `e` is what an optional trailing extras field gives: its record, or the default
/// when it is absent or malformed.
pub open spec fn extras_from(e: HitObjectExtras, f: Option<Seq<char>>) -> bool {
    match f {
        Some(t) if extras_numbers(t) is Some => extras_is(e, t),
        _ => e.is_default(),
    }
}

/// Whether the type code marks a new combo.
pub open spec fn new_combo_of(code: i32) -> bool {
    code & 4 != 0
}

/// How many combo colours to skip.
pub open spec fn color_skip_of(code: i32) -> i32 {
    (code >> 4) & 7
}

/// The variant bits of a type code.
pub open spec fn kind_of(code: i32) -> i32 {
    code & 139
}

/// The fault among the five leading fields x, y, time, type code and hit sound, if any.
pub open spec fn header_fault(ps: Seq<Seq<char>>) -> Option<Fault> {
    if int_field(ps, 0) is Err {
        fault_of(int_field(ps, 0))
    } else if int_field(ps, 1) is Err {
        fault_of(int_field(ps, 1))
    } else if int_field(ps, 2) is Err {
        fault_of(int_field(ps, 2))
    } else if int_field(ps, 3) is Err {
        fault_of(int_field(ps, 3))
    } else {
        fault_of(int_field(ps, 4))
    }
}

/// Why a chart-element record fails to decode, or `None` when it decodes.
pub open spec fn hit_object_fault(t: Seq<char>) -> Option<Fault> {
    let ps = split(t, ',');
    if header_fault(ps) is Some {
        header_fault(ps)
    } else {
        let k = kind_of(int_field(ps, 3)->Ok_0);
        if k == 1 {
            None
        } else if k == 2 {
            match field(ps, 5) {
                None => Some(Fault::Missing),
                Some(c) => if curve_result(c) is Err {
                    fault_of(curve_result(c))
                } else if int_field(ps, 6) is Err {
                    fault_of(int_field(ps, 6))
                } else {
                    fault_of(decimal_field(ps, 7))
                },
            }
        } else if k == 8 {
            fault_of(int_field(ps, 5))
        } else if k == 128 {
            fault_of(hold_end(ps))
        } else {
            Some(Fault::Invalid(object_kind_reason()))
        }
    }
}

/// An optional `|`-separated list: its values, or empty when it is absent or malformed.
pub open spec fn list_or_empty<T>(r: Option<Result<Seq<T>, Fault>>) -> Seq<T> {
    match r {
        Some(Ok(v)) => v,
        _ => Seq::empty(),
    }
}

/// The first index at or after `i` that holds a colon (or the length).
pub open spec fn colon_from(t: Seq<char>, i: int) -> int
    decreases t.len() - i,
{
    if i < 0 || i >= t.len() {
        t.len() as int
    } else if t[i] == ':' {
        i
    } else {
        colon_from(t, i + 1)
    }
}

/// The end time of a hold note: the field before the first colon of its sixth piece, which it
/// shares with the extras record.
pub open spec fn hold_end(ps: Seq<Seq<char>>) -> Result<i32, Fault> {
    match field(ps, 5) {
        None => Err(Fault::Missing),
        Some(t) => int_result(t.subrange(0, colon_from(t, 0))),
    }
}

/// The extras record of a hold note: what follows the first colon of its sixth piece.
pub open spec fn hold_extras_text(t: Seq<char>) -> Option<Seq<char>> {
    let c = colon_from(t, 0);
    if c < t.len() {
        Some(t.subrange(c + 1, t.len() as int))
    } else {
        None
    }
}

/// Whether `o` is the element that the record `t` denotes (when it decodes).
pub open spec fn hit_object_is(o: HitObject, t: Seq<char>) -> bool {
    let ps = split(t, ',');
    let x = int_field(ps, 0)->Ok_0;
    let y = int_field(ps, 1)->Ok_0;
    let time = int_field(ps, 2)->Ok_0;
    let code = int_field(ps, 3)->Ok_0;
    let hitsound = int_field(ps, 4)->Ok_0;
    let k = kind_of(code);
    match o {
        HitObject::HitCircle(c) => k == 1 && c.x == x && c.y == y && c.time == time && c.new_combo
            == new_combo_of(code) && c.color_skip == color_skip_of(code) && c.hitsound
            == hitsound && extras_from(c.extras, field(ps, 5)),
        HitObject::Slider(s) => {
            let curve = curve_result(ps[5])->Ok_0;
            &&& k == 2
            &&& s.x == x && s.y == y && s.time == time
            &&& s.new_combo == new_combo_of(code) && s.color_skip == color_skip_of(code)
            &&& s.hitsound == hitsound
            &&& s.slider_type == curve.0
            &&& s.curve_points@ == curve.1
            &&& s.repeat == int_field(ps, 6)->Ok_0
            &&& s.pixel_length == decimal_field(ps, 7)->Ok_0
            &&& s.edge_hitsounds@ == list_or_empty(
                match field(ps, 8) {
                    Some(f) => Some(ints_result(split(f, '|'))),
                    None => None,
                },
            )
            &&& s.edge_additions@ == list_or_empty(
                match field(ps, 9) {
                    Some(f) => Some(coords_result(split(f, '|'))),
                    None => None,
                },
            )
            &&& extras_from(s.extras, field(ps, 10))
        },
        HitObject::Spinner(s) => k == 8 && s.x == x && s.y == y && s.time == time && s.new_combo
            == new_combo_of(code) && s.color_skip == color_skip_of(code) && s.hitsound
            == hitsound && s.end_time == int_field(ps, 5)->Ok_0 && extras_from(
            s.extras,
            field(ps, 6),
        ),
        HitObject::HoldNote(s) => k == 128 && s.x == x && s.y == y && s.time == time
            && s.new_combo == new_combo_of(code) && s.color_skip == color_skip_of(code)
            && s.hitsound == hitsound && s.end_time == hold_end(ps)->Ok_0 && extras_from(
            s.extras,
            match field(ps, 5) {
                Some(t) => hold_extras_text(t),
                None => None,
            },
        ),
    }
}

/// A syntax error with the given reason.
pub fn syntax_error(reason: &str) -> (e: Error)
    ensures
        syntax_with(e, reason@),
{
    Error::Syntax(reason.to_owned())
}

/// Whether the type code marks the start of a new combo.
pub fn is_new_combo(code: i32) -> (r: bool)
    ensures
        r == new_combo_of(code),
{
    code & 4 != 0
}

/// How many combo colours the element skips.
pub fn color_skip(code: i32) -> (r: i32)
    ensures
        r == color_skip_of(code),
        0 <= r <= 7,
{
    let r = (code >> 4) & 7;
    assert(0 <= (code >> 4) & 7 <= 7) by (bit_vector);
    r
}

/// The variant bits of a type code: 1, 2, 8 or 128 for the four kinds of element.
pub fn object_kind(code: i32) -> (r: i32)
    ensures
        r == kind_of(code),
{
    code & 139
}

fn int_in(t: &[char]) -> (r: Result<i32, Error>)
    ensures
        conforms(r, int_result(t@)),
{
    match int_of_chars(t) {
        Some(v) => Ok(v),
        None => Err(syntax_error("Unable to parse number")),
    }
}

fn decimal_in(t: &[char]) -> (r: Result<Decimal, Error>)
    ensures
        conforms(r, decimal_result(t@)),
        r matches Ok(d) ==> d.wf(),
{
    match decimal_of_chars(t) {
        Some(v) => Ok(v),
        None => Err(syntax_error("Unable to parse number")),
    }
}

fn int_at(ps: &Vec<Vec<char>>, i: usize) -> (r: Result<i32, Error>)
    ensures
        conforms(r, int_field(views(ps@), i as int)),
{
    if i < ps.len() {
        assert(ps@[i as int]@ == views(ps@)[i as int]);
        int_in(ps[i].as_slice())
    } else {
        Err(Error::Parse)
    }
}

fn decimal_at(ps: &Vec<Vec<char>>, i: usize) -> (r: Result<Decimal, Error>)
    ensures
        conforms(r, decimal_field(views(ps@), i as int)),
        r matches Ok(d) ==> d.wf(),
{
    if i < ps.len() {
        assert(ps@[i as int]@ == views(ps@)[i as int]);
        decimal_in(ps[i].as_slice())
    } else {
        Err(Error::Parse)
    }
}

/// Reads a 32-bit integer.
pub fn parse_num(n: &str) -> (r: Result<i32, Error>)
    ensures
        conforms(r, int_result(n@)),
{
    let t = chars_of(n);
    int_in(t.as_slice())
}

/// Reads an exact decimal number.
pub fn parse_decimal(n: &str) -> (r: Result<Decimal, Error>)
    ensures
        conforms(r, decimal_result(n@)),
        r matches Ok(d) ==> d.wf(),
{
    let t = chars_of(n);
    decimal_in(t.as_slice())
}

/// Takes a text value as it stands.
pub fn parse_string(s: &str) -> (r: Result<String, Error>)
    ensures
        r matches Ok(v) && v@ == s@,
{
    let t = chars_of(s);
    Ok(string_of(t.as_slice()))
}

fn bool_in(t: &[char]) -> (r: Result<bool, Error>)
    ensures
        conforms(
            r,
            match bool_text_value(t@) {
                Some(b) => Ok(b),
                None => Err(Fault::Invalid(bool_reason())),
            },
        ),
{
    match bool_of_chars(t) {
        Some(b) => Ok(b),
        None => Err(syntax_error("Could not parse bool")),
    }
}

/// Reads a flag written as an integer: zero is false, any other integer true.
pub fn parse_bool(s: &str) -> (r: Result<bool, Error>)
    ensures
        conforms(
            r,
            match bool_text_value(s@) {
                Some(b) => Ok(b),
                None => Err(Fault::Invalid(bool_reason())),
            },
        ),
{
    let t = chars_of(s);
    bool_in(t.as_slice())
}

fn is_one(t: &[char], c: char) -> (r: bool)
    ensures
        r == (t@ == seq![c]),
{
    if t.len() == 1 && t[0] == c {
        assert(t@ =~= seq![c]);
        true
    } else {
        false
    }
}

pub(crate) fn mode_in(t: &[char]) -> (r: Result<GameMode, Error>)
    ensures
        conforms(
            r,
            match mode_value(t@) {
                Some(m) => Ok(m),
                None => Err(Fault::Invalid(mode_reason())),
            },
        ),
{
    if is_one(t, '0') {
        Ok(GameMode::Osu)
    } else if is_one(t, '1') {
        Ok(GameMode::Taiko)
    } else if is_one(t, '2') {
        Ok(GameMode::CTB)
    } else if is_one(t, '3') {
        Ok(GameMode::Mania)
    } else {
        Err(syntax_error("Unable to parse gamemode"))
    }
}

/// Reads a game mode code: 0 to 3.
pub fn parse_mode(s: &str) -> (r: Result<GameMode, Error>)
    ensures
        conforms(
            r,
            match mode_value(s@) {
                Some(m) => Ok(m),
                None => Err(Fault::Invalid(mode_reason())),
            },
        ),
{
    let t = chars_of(s);
    mode_in(t.as_slice())
}

fn slider_type_in(t: &[char]) -> (r: Result<SliderType, Error>)
    ensures
        conforms(
            r,
            match slider_type_value(t@) {
                Some(k) => Ok(k),
                None => Err(Fault::Invalid(slider_type_reason())),
            },
        ),
{
    if is_one(t, 'L') {
        Ok(SliderType::Linear)
    } else if is_one(t, 'B') {
        Ok(SliderType::Bezier)
    } else if is_one(t, 'P') {
        Ok(SliderType::Perfect)
    } else if is_one(t, 'C') {
        Ok(SliderType::Catmull)
    } else {
        Err(syntax_error("Invalid slider type"))
    }
}

/// Reads a curve-kind letter: `L`, `B`, `P` or `C`.
pub fn parse_slider_type(s: &str) -> (r: Result<SliderType, Error>)
    ensures
        conforms(
            r,
            match slider_type_value(s@) {
                Some(k) => Ok(k),
                None => Err(Fault::Invalid(slider_type_reason())),
            },
        ),
{
    let t = chars_of(s);
    slider_type_in(t.as_slice())
}

pub(crate) fn colour_in(t: &[char]) -> (r: Result<Colour, Error>)
    ensures
        conforms(r, colour_result(t@)),
{
    let ps = split_chars(t, ',');
    let r = int_at(&ps, 0)?;
    let g = int_at(&ps, 1)?;
    let b = int_at(&ps, 2)?;
    Ok(Colour(r, g, b))
}

/// Reads a colour `r,g,b`.
pub fn parse_colour(s: &str) -> (r: Result<Colour, Error>)
    ensures
        conforms(r, colour_result(s@)),
{
    let t = chars_of(s);
    colour_in(t.as_slice())
}

fn coord_in(t: &[char]) -> (r: Result<(i32, i32), Error>)
    ensures
        conforms(r, coord_result(t@)),
{
    let ps = split_chars(t, ':');
    let x = int_at(&ps, 0)?;
    let y = int_at(&ps, 1)?;
    Ok((x, y))
}

/// Reads a point `x:y`.
pub fn parse_coord(s: &str) -> (r: Result<(i32, i32), Error>)
    ensures
        conforms(r, coord_result(s@)),
{
    let t = chars_of(s);
    coord_in(t.as_slice())
}

fn trimmed_int_at(ps: &Vec<Vec<char>>, i: usize) -> (r: Option<i32>)
    requires
        i < ps@.len(),
    ensures
        r == int_text_value(trim(views(ps@)[i as int])),
{
    assert(ps@[i as int]@ == views(ps@)[i as int]);
    let t = trim_chars(ps[i].as_slice());
    int_of_chars(t.as_slice())
}

fn field_kind_at(r: Record, i: usize) -> (k: FieldKind)
    requires
        i < record_kinds(r).len(),
    ensures
        k == record_kinds(r)[i as int],
{
    match r {
        Record::Extras => if i < 4 {
            FieldKind::Int
        } else {
            FieldKind::Text
        },
        Record::Marker => match i {
            1 => FieldKind::Dec,
            3 => FieldKind::Text,
            6 | 7 => FieldKind::Flag,
            _ => FieldKind::Int,
        },
    }
}

fn field_name_at(r: Record, i: usize) -> (n: &'static str)
    requires
        i < record_kinds(r).len(),
    ensures
        n@ == record_names(r)[i as int],
{
    match r {
        Record::Extras => match i {
            0 => "sample_set",
            1 => "addition_set",
            2 => "custom_index",
            3 => "sample_volume",
            _ => "filename",
        },
        Record::Marker => match i {
            0 => "offset",
            1 => "ms_per_beat",
            2 => "meter",
            3 => "sample_set",
            4 => "sample_index",
            5 => "volume",
            6 => "inherited",
            _ => "kiai_mode",
        },
    }
}

fn record_name(r: Record) -> (n: &'static str)
    ensures
        n@ == record_struct(r),
{
    match r {
        Record::Extras => "HitObjectExtras",
        Record::Marker => "TimingPoint",
    }
}

fn record_len(r: Record) -> (n: usize)
    ensures
        n == record_kinds(r).len(),
{
    match r {
        Record::Extras => 5,
        Record::Marker => 8,
    }
}

fn field_reads(k: FieldKind, t: &[char]) -> (r: Result<(), Error>)
    ensures
        r is Ok <==> field_decodes(k, t@),
        r matches Err(e) ==> syntax_with(e, field_reason(k)),
{
    match k {
        FieldKind::Int => match int_of_chars(t) {
            Some(_) => Ok(()),
            None => Err(syntax_error("Unable to parse number")),
        },
        FieldKind::Dec => match decimal_of_chars(t) {
            Some(_) => Ok(()),
            None => Err(syntax_error("Unable to parse number")),
        },
        FieldKind::Flag => match bool_of_chars(t) {
            Some(_) => Ok(()),
            None => Err(syntax_error("Could not parse bool")),
        },
        FieldKind::Text => Ok(()),
    }
}

/// Reads the fields of a positional record in order and reports the first that is missing
/// or does not decode.
pub(crate) fn record_check(ps: &Vec<Vec<char>>, r: Record) -> (res: Result<(), Error>)
    ensures
        match record_fault(views(ps@), r) {
            None => res is Ok,
            Some(f) => res matches Err(e) && reports(e, f),
        },
{
    let n = record_len(r);
    let mut i: usize = 0;
    while i < n
        invariant
            i <= n == record_kinds(r).len(),
            record_fault(views(ps@), r) == record_fault_from(views(ps@), r, i as int),
        decreases n - i,
    {
        if i >= ps.len() {
            let mut m = String::from_str("Unable to read field ");
            m.append(field_name_at(r, i));
            m.append(" into struct ");
            m.append(record_name(r));
            assert(m@ =~= missing_field_reason(record_names(r)[i as int], record_struct(r)));
            return Err(Error::Syntax(m));
        }
        assert(ps@[i as int]@ == views(ps@)[i as int]);
        let t = trim_chars(ps[i].as_slice());
        field_reads(field_kind_at(r, i), t.as_slice())?;
        i += 1;
    }
    Ok(())
}

fn extras_in(t: &[char]) -> (r: Result<HitObjectExtras, Error>)
    ensures
        r matches Ok(e) ==> extras_is(e, t@),
        r is Err ==> extras_numbers(t@) is None,
        match record_fault(split(t@, ':'), Record::Extras) {
            None => r is Ok,
            Some(f) => r matches Err(e) && reports(e, f),
        },
{
    let ps = split_chars(t, ':');
    let ghost pv = views(ps@);
    match record_check(&ps, Record::Extras) {
        Ok(()) => {},
        Err(e) => {
            proof {
                if extras_numbers(t@) is Some {
                    lemma_record_all_ok(pv, Record::Extras, 0);
                }
            }
            return Err(e);
        },
    }
    proof {
        lemma_record_ok(pv, Record::Extras, 0);
        assert(field_decodes(record_kinds(Record::Extras)[0], trim(pv[0])));
        assert(field_decodes(record_kinds(Record::Extras)[1], trim(pv[1])));
        assert(field_decodes(record_kinds(Record::Extras)[2], trim(pv[2])));
        assert(field_decodes(record_kinds(Record::Extras)[3], trim(pv[3])));
    }
    let a = trimmed_int_at(&ps, 0);
    let b = trimmed_int_at(&ps, 1);
    let c = trimmed_int_at(&ps, 2);
    let d = trimmed_int_at(&ps, 3);
    match (a, b, c, d) {
        (Some(a), Some(b), Some(c), Some(d)) => {
            assert(ps@[4]@ == views(ps@)[4]);
            let name = trim_chars(ps[4].as_slice());
            Ok(
                HitObjectExtras {
                    sample_set: a,
                    addition_set: b,
                    custom_index: c,
                    sample_volume: d,
                    filename: string_of(name.as_slice()),
                },
            )
        },
        _ => Err(syntax_error("Unable to parse number")),
    }
}

/// Reads an extras record `set:addition:index:volume:filename`; a missing field is an error
/// that names it.
pub fn parse_extras(s: &str) -> (r: Result<HitObjectExtras, Error>)
    ensures
        r matches Ok(e) ==> extras_is(e, s@),
        r is Err ==> extras_numbers(s@) is None,
        match record_fault(split(s@, ':'), Record::Extras) {
            None => r is Ok,
            Some(f) => r matches Err(e) && reports(e, f),
        },
{
    let t = chars_of(s);
    extras_in(t.as_slice())
}

fn extras_at(ps: &Vec<Vec<char>>, i: usize) -> (r: HitObjectExtras)
    ensures
        extras_from(r, field(views(ps@), i as int)),
{
    if i < ps.len() {
        assert(ps@[i as int]@ == views(ps@)[i as int]);
        match extras_in(ps[i].as_slice()) {
            Ok(e) => e,
            Err(_) => HitObjectExtras::default(),
        }
    } else {
        HitObjectExtras::default()
    }
}

fn coords_in(qs: &Vec<Vec<char>>, from: usize) -> (r: Result<Vec<(i32, i32)>, Error>)
    requires
        from <= qs@.len(),
    ensures
        conforms(
            match r {
                Ok(v) => Ok(v@),
                Err(e) => Err(e),
            },
            coords_result(views(qs@).subrange(from as int, qs@.len() as int)),
        ),
{
    let ghost all = views(qs@).subrange(from as int, qs@.len() as int);
    let ghost rs = all.map_values(|q: Seq<char>| coord_result(q));
    let mut out: Vec<(i32, i32)> = Vec::new();
    let mut i: usize = from;
    assert(rs.subrange(0, 0) =~= Seq::<Result<(i32, i32), Fault>>::empty());
    while i < qs.len()
        invariant
            from <= i <= qs@.len(),
            all == views(qs@).subrange(from as int, qs@.len() as int),
            rs == all.map_values(|q: Seq<char>| coord_result(q)),
            collect(rs.subrange(0, i - from)) == Ok::<Seq<(i32, i32)>, Fault>(out@),
        decreases qs@.len() - i,
    {
        let ghost p = rs.subrange(0, i - from + 1);
        proof {
            assert(p.drop_last() =~= rs.subrange(0, i - from));
            assert(p.last() == coord_result(qs@[i as int]@));
        }
        match coord_in(qs[i].as_slice()) {
            Ok(c) => {
                out.push(c);
            },
            Err(e) => {
                proof {
                    lemma_collect_prefix_fault(rs, i - from + 1);
                }
                return Err(e);
            },
        }
        i += 1;
    }
    assert(rs.subrange(0, i - from) =~= rs);
    Ok(out)
}

fn ints_in(qs: &Vec<Vec<char>>) -> (r: Result<Vec<i32>, Error>)
    ensures
        conforms(
            match r {
                Ok(v) => Ok(v@),
                Err(e) => Err(e),
            },
            ints_result(views(qs@)),
        ),
{
    let ghost rs = views(qs@).map_values(|q: Seq<char>| int_result(q));
    let mut out: Vec<i32> = Vec::new();
    let mut i: usize = 0;
    assert(rs.subrange(0, 0) =~= Seq::<Result<i32, Fault>>::empty());
    while i < qs.len()
        invariant
            i <= qs@.len(),
            rs == views(qs@).map_values(|q: Seq<char>| int_result(q)),
            collect(rs.subrange(0, i as int)) == Ok::<Seq<i32>, Fault>(out@),
        decreases qs@.len() - i,
    {
        let ghost p = rs.subrange(0, i + 1);
        proof {
            assert(p.drop_last() =~= rs.subrange(0, i as int));
            assert(p.last() == int_result(qs@[i as int]@));
        }
        match int_in(qs[i].as_slice()) {
            Ok(c) => {
                out.push(c);
            },
            Err(e) => {
                proof {
                    lemma_collect_prefix_fault(rs, i + 1);
                }
                return Err(e);
            },
        }
        i += 1;
    }
    assert(rs.subrange(0, i as int) =~= rs);
    Ok(out)
}

/// Reads a curve record: a kind letter, then `x:y` control points, separated by `|`.
pub fn parse_curve_points(s: &str) -> (r: Result<(SliderType, Vec<(i32, i32)>), Error>)
    ensures
        conforms(
            match r {
                Ok((k, v)) => Ok((k, v@)),
                Err(e) => Err(e),
            },
            curve_result(s@),
        ),
{
    let t = chars_of(s);
    curve_in(t.as_slice())
}

fn curve_in(t: &[char]) -> (r: Result<(SliderType, Vec<(i32, i32)>), Error>)
    ensures
        conforms(
            match r {
                Ok((k, v)) => Ok((k, v@)),
                Err(e) => Err(e),
            },
            curve_result(t@),
        ),
{
    let ps = split_chars(t, '|');
    proof {
        lemma_split_nonempty(t@, '|');
        assert(ps@[0]@ == views(ps@)[0]);
        assert(views(ps@).subrange(1, ps@.len() as int) =~= views(ps@).drop_first());
    }
    let k = slider_type_in(ps[0].as_slice())?;
    let v = coords_in(&ps, 1)?;
    Ok((k, v))
}

/// An optional list of integers separated by `|`: empty when absent or malformed.
fn ints_list_at(ps: &Vec<Vec<char>>, i: usize) -> (r: Vec<i32>)
    ensures
        r@ == list_or_empty(
            match field(views(ps@), i as int) {
                Some(f) => Some(ints_result(split(f, '|'))),
                None => None,
            },
        ),
{
    if i < ps.len() {
        assert(ps@[i as int]@ == views(ps@)[i as int]);
        let qs = split_chars(ps[i].as_slice(), '|');
        match ints_in(&qs) {
            Ok(v) => v,
            Err(_) => Vec::new(),
        }
    } else {
        Vec::new()
    }
}

/// An optional list of points separated by `|`: empty when absent or malformed.
fn coords_list_at(ps: &Vec<Vec<char>>, i: usize) -> (r: Vec<(i32, i32)>)
    ensures
        r@ == list_or_empty(
            match field(views(ps@), i as int) {
                Some(f) => Some(coords_result(split(f, '|'))),
                None => None,
            },
        ),
{
    if i < ps.len() {
        assert(ps@[i as int]@ == views(ps@)[i as int]);
        let qs = split_chars(ps[i].as_slice(), '|');
        assert(views(qs@).subrange(0, qs@.len() as int) =~= views(qs@));
        match coords_in(&qs, 0) {
            Ok(v) => v,
            Err(_) => Vec::new(),
        }
    } else {
        Vec::new()
    }
}

/// The end time and extras of a hold note, which share its sixth piece: `end:extras`.
fn hold_at(ps: &Vec<Vec<char>>) -> (r: Result<(i32, HitObjectExtras), Error>)
    ensures
        match r {
            Ok((n, e)) => hold_end(views(ps@)) == Ok::<i32, Fault>(n) && extras_from(
                e,
                hold_extras_text(views(ps@)[5]),
            ),
            Err(e) => hold_end(views(ps@)) matches Err(f) && reports(e, f),
        },
{
    if ps.len() <= 5 {
        return Err(Error::Parse);
    }
    let t = ps[5].as_slice();
    assert(t@ == views(ps@)[5]);
    let mut c: usize = 0;
    while c < t.len() && t[c] != ':'
        invariant
            c <= t@.len(),
            colon_from(t@, 0) == colon_from(t@, c as int),
        decreases t@.len() - c,
    {
        c += 1;
    }
    let end = crate::text::slice_of(t, 0, c);
    let n = int_in(end.as_slice())?;
    let extras = if c < t.len() {
        let rest = crate::text::slice_of(t, c + 1, t.len());
        match extras_in(rest.as_slice()) {
            Ok(e) => e,
            Err(_) => HitObjectExtras::default(),
        }
    } else {
        HitObjectExtras::default()
    };
    Ok((n, extras))
}

pub(crate) fn hit_object_in(t: &[char]) -> (r: Result<HitObject, Error>)
    ensures
        match r {
            Ok(o) => hit_object_fault(t@) is None && hit_object_is(o, t@),
            Err(e) => hit_object_fault(t@) matches Some(f) && reports(e, f),
        },
{
    let ps = split_chars(t, ',');
    let ghost pv = views(ps@);
    let x = int_at(&ps, 0)?;
    let y = int_at(&ps, 1)?;
    let time = int_at(&ps, 2)?;
    let code = int_at(&ps, 3)?;
    let hitsound = int_at(&ps, 4)?;
    let new_combo = is_new_combo(code);
    let color_skip = color_skip(code);
    let kind = object_kind(code);
    if kind == 1 {
        Ok(
            HitObject::HitCircle(
                HitCircle {
                    x,
                    y,
                    new_combo,
                    color_skip,
                    time,
                    hitsound,
                    extras: extras_at(&ps, 5),
                },
            ),
        )
    } else if kind == 2 {
        if ps.len() <= 5 {
            return Err(Error::Parse);
        }
        assert(ps@[5]@ == pv[5]);
        let (slider_type, curve_points) = curve_in(ps[5].as_slice())?;
        let repeat = int_at(&ps, 6)?;
        let pixel_length = decimal_at(&ps, 7)?;
        Ok(
            HitObject::Slider(
                Slider {
                    x,
                    y,
                    new_combo,
                    color_skip,
                    time,
                    hitsound,
                    slider_type,
                    curve_points,
                    repeat,
                    pixel_length,
                    edge_hitsounds: ints_list_at(&ps, 8),
                    edge_additions: coords_list_at(&ps, 9),
                    extras: extras_at(&ps, 10),
                },
            ),
        )
    } else if kind == 8 {
        let end_time = int_at(&ps, 5)?;
        Ok(
            HitObject::Spinner(
                Spinner {
                    x,
                    y,
                    time,
                    new_combo,
                    color_skip,
                    hitsound,
                    end_time,
                    extras: extras_at(&ps, 6),
                },
            ),
        )
    } else if kind == 128 {
        let (end_time, extras) = hold_at(&ps)?;
        Ok(
            HitObject::HoldNote(
                HoldNote {
                    x,
                    y,
                    time,
                    new_combo,
                    color_skip,
                    hitsound,
                    end_time,
                    extras,
                },
            ),
        )
    } else {
        Err(syntax_error("Invalid hit object type"))
    }
}

/// Decodes one chart-element record: x, y, time, type code and hit sound, then the fields of
/// the kind that the type code selects.
pub fn parse_hit_object(s: &str) -> (r: Result<HitObject, Error>)
    ensures
        match r {
            Ok(o) => hit_object_fault(s@) is None && hit_object_is(o, s@),
            Err(e) => hit_object_fault(s@) matches Some(f) && reports(e, f),
        },
{
    let t = chars_of(s);
    hit_object_in(t.as_slice())
}

} // verus!
