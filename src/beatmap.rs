//! The typed chart: difficulties, their sections, tempo markers and chart elements.
use vstd::prelude::*;
use crate::number::Decimal;

verus! {

/// Why a document could not be decoded.
#[derive(Debug)]
pub enum Error {
    /// A required positional field was absent.
    Parse,
    /// A value was present but did not decode, or the grammar was broken.
    Syntax(String),
    /// A collaborator failed, such as an asset that the chart names but the bundle lacks.
    Message(String),
}

/// A chart bundle: each of its chart documents, decoded.
pub struct Beatmap {
    pub difficulties: Vec<Difficulty>,
}

pub struct Difficulty {
    pub version: i32,
    pub audio_bytes: Vec<u8>,
    pub general: GeneralSection,
    pub editor: EditorSection,
    pub metadata: MetadataSection,
    pub timing_points: Vec<TimingPoint>,
    pub hit_objects: Vec<HitObject>,
    pub difficulty: DifficultySection,
    pub colours: ColoursSection,
}

impl Difficulty {
    /// A difficulty with every section at its defaults and nothing in its lists.
    pub open spec fn is_default(&self) -> bool {
        &&& self.version == 0
        &&& self.audio_bytes@.len() == 0
        &&& self.general.is_default()
        &&& self.editor.is_default()
        &&& self.metadata.is_default()
        &&& self.timing_points@.len() == 0
        &&& self.hit_objects@.len() == 0
        &&& self.difficulty.is_default()
        &&& self.colours.is_default()
    }
}

impl Default for Difficulty {
    fn default() -> (r: Self)
        ensures
            r.is_default(),
    {
        Difficulty {
            version: 0,
            audio_bytes: Vec::new(),
            general: GeneralSection::default(),
            editor: EditorSection::default(),
            metadata: MetadataSection::default(),
            timing_points: Vec::new(),
            hit_objects: Vec::new(),
            difficulty: DifficultySection::default(),
            colours: ColoursSection::default(),
        }
    }
}

#[derive(Clone, Copy, Debug, PartialEq, Eq, Structural)]
pub enum GameMode {
    Osu,
    Taiko,
    CTB,
    Mania,
}

#[derive(Debug)]
pub struct GeneralSection {
    pub audio_filename: String,
    pub audio_lead_in: i32,
    pub preview_time: i32,
    pub countdown: bool,
    pub sample_set: String,
    pub stack_leniency: Decimal,
    pub game_mode: GameMode,
    pub letterbox_in_breaks: bool,
    pub widescreen_storyboard: bool,
    pub story_fire_in_front: bool,
    pub special_style: bool,
    pub epilepsy_warning: bool,
    pub use_skin_sprites: bool,
}

impl GeneralSection {
    /// The section's documented defaults.
    pub open spec fn is_default(&self) -> bool {
        &&& self.audio_filename@ == Seq::<char>::empty()
        &&& self.audio_lead_in == 0
        &&& self.preview_time == 0
        &&& !self.countdown
        &&& self.sample_set@ == Seq::<char>::empty()
        &&& self.stack_leniency == Decimal { mantissa: 0, scale: 0 }
        &&& self.game_mode == GameMode::Osu
        &&& !self.letterbox_in_breaks
        &&& !self.widescreen_storyboard
        &&& !self.story_fire_in_front
        &&& !self.special_style
        &&& !self.epilepsy_warning
        &&& !self.use_skin_sprites
    }
}

impl Default for GeneralSection {
    fn default() -> (r: Self)
        ensures
            r.is_default(),
    {
        GeneralSection {
            audio_filename: String::new(),
            audio_lead_in: 0,
            preview_time: 0,
            countdown: false,
            sample_set: String::new(),
            stack_leniency: Decimal::whole(0),
            game_mode: GameMode::Osu,
            letterbox_in_breaks: false,
            widescreen_storyboard: false,
            story_fire_in_front: false,
            special_style: false,
            epilepsy_warning: false,
            use_skin_sprites: false,
        }
    }
}

pub struct EditorSection {
    pub bookmarks: Vec<i32>,
    pub distance_spacing: Decimal,
    pub beat_divisor: i32,
    pub grid_size: i32,
    pub timeline_zoom: Decimal,
}

impl EditorSection {
    /// The section's documented defaults: spacing 1.22, divisor 4, grid 4, zoom 1.
    pub open spec fn is_default(&self) -> bool {
        &&& self.bookmarks@ == Seq::<i32>::empty()
        &&& self.distance_spacing == Decimal { mantissa: 122, scale: 2 }
        &&& self.beat_divisor == 4
        &&& self.grid_size == 4
        &&& self.timeline_zoom == Decimal { mantissa: 1, scale: 0 }
    }
}

impl Default for EditorSection {
    fn default() -> (r: Self)
        ensures
            r.is_default(),
    {
        EditorSection {
            bookmarks: Vec::new(),
            distance_spacing: Decimal { mantissa: 122, scale: 2 },
            beat_divisor: 4,
            grid_size: 4,
            timeline_zoom: Decimal::whole(1),
        }
    }
}

pub struct MetadataSection {
    pub title: String,
    pub title_unicode: String,
    pub artist: String,
    pub artist_unicode: String,
    pub creator: String,
    pub version: String,
    pub source: String,
    pub tags: Vec<String>,
    pub beatmap_id: i32,
    pub beatmap_set_id: i32,
}

impl MetadataSection {
    /// The section's documented defaults: empty texts, no tags, zero identifiers.
    pub open spec fn is_default(&self) -> bool {
        &&& self.title@ == Seq::<char>::empty()
        &&& self.title_unicode@ == Seq::<char>::empty()
        &&& self.artist@ == Seq::<char>::empty()
        &&& self.artist_unicode@ == Seq::<char>::empty()
        &&& self.creator@ == Seq::<char>::empty()
        &&& self.version@ == Seq::<char>::empty()
        &&& self.source@ == Seq::<char>::empty()
        &&& self.tags@.len() == 0
        &&& self.beatmap_id == 0
        &&& self.beatmap_set_id == 0
    }
}

impl Default for MetadataSection {
    fn default() -> (r: Self)
        ensures
            r.is_default(),
    {
        MetadataSection {
            title: String::new(),
            title_unicode: String::new(),
            artist: String::new(),
            artist_unicode: String::new(),
            creator: String::new(),
            version: String::new(),
            source: String::new(),
            tags: Vec::new(),
            beatmap_id: 0,
            beatmap_set_id: 0,
        }
    }
}

pub struct DifficultySection {
    pub hp_drain_rate: Decimal,
    pub circle_size: Decimal,
    pub overall_difficulty: Decimal,
    pub approach_rate: Decimal,
    pub slider_multiplier: Decimal,
    pub slider_tick_rate: Decimal,
}

impl DifficultySection {
    /// The section's documented defaults: every setting zero.
    pub open spec fn is_default(&self) -> bool {
        &&& self.hp_drain_rate == Decimal { mantissa: 0, scale: 0 }
        &&& self.circle_size == Decimal { mantissa: 0, scale: 0 }
        &&& self.overall_difficulty == Decimal { mantissa: 0, scale: 0 }
        &&& self.approach_rate == Decimal { mantissa: 0, scale: 0 }
        &&& self.slider_multiplier == Decimal { mantissa: 0, scale: 0 }
        &&& self.slider_tick_rate == Decimal { mantissa: 0, scale: 0 }
    }
}

impl Default for DifficultySection {
    fn default() -> (r: Self)
        ensures
            r.is_default(),
    {
        DifficultySection {
            hp_drain_rate: Decimal::whole(0),
            circle_size: Decimal::whole(0),
            overall_difficulty: Decimal::whole(0),
            approach_rate: Decimal::whole(0),
            slider_multiplier: Decimal::whole(0),
            slider_tick_rate: Decimal::whole(0),
        }
    }
}

/// A tempo marker. A positive beat length defines the milliseconds per beat; a non-positive
/// one scales the velocity by `-100 / ms_per_beat`.
pub struct TimingPoint {
    pub offset: i32,
    pub ms_per_beat: Decimal,
    pub meter: i32,
    pub sample_set: String,
    pub sample_index: i32,
    pub volume: i32,
    pub inherited: bool,
    pub kiai_mode: bool,
}

pub enum HitObject {
    HitCircle(HitCircle),
    Slider(Slider),
    Spinner(Spinner),
    HoldNote(HoldNote),
}

pub struct HitCircle {
    pub x: i32,
    pub y: i32,
    pub new_combo: bool,
    pub color_skip: i32,
    pub time: i32,
    pub hitsound: i32,
    pub extras: HitObjectExtras,
}

#[derive(Clone, Copy, Debug, PartialEq, Eq, Structural)]
pub enum SliderType {
    Linear,
    Bezier,
    Perfect,
    Catmull,
}

pub struct Slider {
    pub x: i32,
    pub y: i32,
    pub new_combo: bool,
    pub color_skip: i32,
    pub time: i32,
    pub slider_type: SliderType,
    pub curve_points: Vec<(i32, i32)>,
    pub repeat: i32,
    pub pixel_length: Decimal,
    pub edge_hitsounds: Vec<i32>,
    pub edge_additions: Vec<(i32, i32)>,
    pub hitsound: i32,
    pub extras: HitObjectExtras,
}

pub struct Spinner {
    pub x: i32,
    pub y: i32,
    pub new_combo: bool,
    pub color_skip: i32,
    pub time: i32,
    pub hitsound: i32,
    pub end_time: i32,
    pub extras: HitObjectExtras,
}

pub struct HoldNote {
    pub x: i32,
    pub y: i32,
    pub new_combo: bool,
    pub color_skip: i32,
    pub time: i32,
    pub hitsound: i32,
    pub end_time: i32,
    pub extras: HitObjectExtras,
}

pub struct HitObjectExtras {
    pub sample_set: i32,
    pub addition_set: i32,
    pub custom_index: i32,
    pub sample_volume: i32,
    pub filename: String,
}

impl HitObjectExtras {
    /// The record used when an element has no extras, or malformed ones.
    pub open spec fn is_default(&self) -> bool {
        &&& self.sample_set == 0
        &&& self.addition_set == 0
        &&& self.custom_index == 0
        &&& self.sample_volume == 0
        &&& self.filename@ == Seq::<char>::empty()
    }
}

impl Default for HitObjectExtras {
    fn default() -> (r: Self)
        ensures
            r.is_default(),
    {
        HitObjectExtras {
            sample_set: 0,
            addition_set: 0,
            custom_index: 0,
            sample_volume: 0,
            filename: String::new(),
        }
    }
}

/// A red, green, blue triple.
#[derive(Clone, Copy, Debug, PartialEq, Eq, Structural)]
pub struct Colour(pub i32, pub i32, pub i32);

pub struct ColoursSection {
    pub colours: Vec<Colour>,
    pub slider_body: Colour,
    pub slider_track_override: Colour,
    pub slider_border: Colour,
}

impl ColoursSection {
    /// No combo colours, and black overrides.
    pub open spec fn is_default(&self) -> bool {
        &&& self.colours@.len() == 0
        &&& self.slider_body == Colour(0, 0, 0)
        &&& self.slider_track_override == Colour(0, 0, 0)
        &&& self.slider_border == Colour(0, 0, 0)
    }
}

impl Default for ColoursSection {
    fn default() -> (r: Self)
        ensures
            r.is_default(),
    {
        ColoursSection {
            colours: Vec::new(),
            slider_body: Colour(0, 0, 0),
            slider_track_override: Colour(0, 0, 0),
            slider_border: Colour(0, 0, 0),
        }
    }
}

} // verus!
