use zoku::beatmap::{Colour, Error, GameMode, HitObject, SliderType, TimingPoint};
use zoku::curve::bezier_weights;
use zoku::fields::{
    color_skip, is_new_combo, object_kind, parse_bool, parse_colour, parse_coord,
    parse_curve_points, parse_decimal, parse_extras, parse_hit_object, parse_mode, parse_num,
    parse_slider_type, parse_string,
};
use zoku::number::Decimal;
use zoku::osu::{parse_section, OsuParser, Section};
use zoku::scanner::{parse_kv_pair, ParseState};
use zoku::timing::TimingPointManager;

fn dec(mantissa: i64, scale: u32) -> Decimal {
    Decimal { mantissa, scale }
}

fn dec_value(d: Decimal) -> f64 {
    d.mantissa as f64 / 10f64.powi(d.scale as i32)
}

fn marker(offset: i32, ms_per_beat: Decimal) -> TimingPoint {
    TimingPoint {
        offset,
        ms_per_beat,
        meter: 4,
        sample_set: String::new(),
        sample_index: 0,
        volume: 100,
        inherited: false,
        kiai_mode: false,
    }
}

#[test]
fn bool_decode() {
    assert!(matches!(parse_bool("0"), Ok(false)));
    assert!(matches!(parse_bool("1"), Ok(true)));
    assert!(matches!(parse_bool("-7"), Ok(true)));
    assert!(matches!(parse_bool("+0"), Ok(false)));
    assert!(matches!(parse_bool("true"), Err(Error::Syntax(_))));
    assert!(matches!(parse_bool(""), Err(Error::Syntax(_))));
}

#[test]
fn integer_decode() {
    assert!(matches!(parse_num("42"), Ok(42)));
    assert!(matches!(parse_num("-2147483648"), Ok(-2147483648)));
    assert!(matches!(parse_num("2147483647"), Ok(2147483647)));
    assert!(matches!(parse_num("2147483648"), Err(Error::Syntax(_))));
    assert!(matches!(parse_num("+5"), Ok(5)));
    assert!(matches!(parse_num("-"), Err(Error::Syntax(_))));
    assert!(matches!(parse_num("1.5"), Err(Error::Syntax(_))));
    assert!(matches!(parse_num(" 1"), Err(Error::Syntax(_))));
}

#[test]
fn decimal_decode() {
    assert_eq!(parse_decimal("1.22").ok(), Some(dec(122, 2)));
    assert_eq!(parse_decimal("-50.0").ok(), Some(dec(-500, 1)));
    assert_eq!(parse_decimal("500").ok(), Some(dec(500, 0)));
    assert_eq!(parse_decimal(".5").ok(), Some(dec(5, 1)));
    assert_eq!(parse_decimal("5.").ok(), Some(dec(5, 0)));
    assert!(matches!(parse_decimal("."), Err(Error::Syntax(_))));
    assert!(matches!(parse_decimal("1.2.3"), Err(Error::Syntax(_))));
    assert!(matches!(parse_decimal("abc"), Err(Error::Syntax(_))));
}

#[test]
fn string_and_mode_decode() {
    assert_eq!(parse_string("Some Title").ok().as_deref(), Some("Some Title"));
    assert!(matches!(parse_mode("0"), Ok(GameMode::Osu)));
    assert!(matches!(parse_mode("1"), Ok(GameMode::Taiko)));
    assert!(matches!(parse_mode("2"), Ok(GameMode::CTB)));
    assert!(matches!(parse_mode("3"), Ok(GameMode::Mania)));
    assert!(matches!(parse_mode("4"), Err(Error::Syntax(_))));
}

#[test]
fn colour_and_coord_decode() {
    assert_eq!(parse_colour("1,2,3").ok(), Some(Colour(1, 2, 3)));
    assert!(matches!(parse_colour("1,2"), Err(Error::Parse)));
    assert!(matches!(parse_colour("1,x,3"), Err(Error::Syntax(_))));
    assert_eq!(parse_coord("3:-4").ok(), Some((3, -4)));
    assert!(matches!(parse_coord("3"), Err(Error::Parse)));
}

#[test]
fn slider_kinds_and_curves() {
    assert!(matches!(parse_slider_type("L"), Ok(SliderType::Linear)));
    assert!(matches!(parse_slider_type("B"), Ok(SliderType::Bezier)));
    assert!(matches!(parse_slider_type("P"), Ok(SliderType::Perfect)));
    assert!(matches!(parse_slider_type("C"), Ok(SliderType::Catmull)));
    assert!(matches!(parse_slider_type("X"), Err(Error::Syntax(_))));
    let (kind, points) = parse_curve_points("B|1:2|3:4").ok().unwrap();
    assert_eq!(kind, SliderType::Bezier);
    assert_eq!(points, vec![(1, 2), (3, 4)]);
    assert!(matches!(parse_curve_points("B|1:2|3"), Err(Error::Parse)));
}

#[test]
fn extras_decode() {
    let e = parse_extras("1:2:3:70:hit.wav").ok().unwrap();
    assert_eq!((e.sample_set, e.addition_set, e.custom_index, e.sample_volume), (1, 2, 3, 70));
    assert_eq!(e.filename, "hit.wav");
    assert!(matches!(parse_extras("1:2:3:70"), Err(Error::Syntax(_))));
}

#[test]
fn hit_object_type_table() {
    for v in 0..256i32 {
        let line = format!("10,20,300,{},0", v);
        let r = parse_hit_object(&line);
        match v & 139 {
            1 => assert!(matches!(r, Ok(HitObject::HitCircle(_))), "code {}", v),
            2 => assert!(matches!(r, Err(Error::Parse)), "code {}", v),
            8 | 128 => assert!(matches!(r, Err(Error::Parse)), "code {}", v),
            _ => assert!(matches!(r, Err(Error::Syntax(_))), "code {}", v),
        }
        let full = format!("10,20,300,{},0,B|1:2,1,100,1000", v);
        let r = parse_hit_object(&full);
        match v & 139 {
            1 => assert!(matches!(r, Ok(HitObject::HitCircle(_)))),
            2 => assert!(matches!(r, Ok(HitObject::Slider(_)))),
            8 | 128 => assert!(matches!(r, Err(Error::Syntax(_)))),
            _ => assert!(matches!(r, Err(Error::Syntax(_)))),
        }
        let timed = format!("10,20,300,{},0,1000", v);
        let r = parse_hit_object(&timed);
        match v & 139 {
            8 => assert!(matches!(r, Ok(HitObject::Spinner(_)))),
            128 => assert!(matches!(r, Ok(HitObject::HoldNote(_)))),
            _ => {}
        }
    }
}

#[test]
fn combo_bits() {
    for v in [0i32, 4, 5, 21, 112, 116, -1, 255, 1000] {
        assert_eq!(is_new_combo(v), v & 4 != 0);
        assert_eq!(color_skip(v), (v >> 4) & 7);
        assert_eq!(object_kind(v), v & 139);
    }
    assert_eq!(color_skip(0x35), 3);
    match parse_hit_object("1,2,3,53,0").ok().unwrap() {
        HitObject::HitCircle(c) => {
            assert!(c.new_combo);
            assert_eq!(c.color_skip, 3);
        }
        _ => panic!("expected a circle"),
    }
}

#[test]
fn hit_circle_fields() {
    match parse_hit_object("256,192,1000,1,2,0:0:0:0:").ok().unwrap() {
        HitObject::HitCircle(c) => {
            assert_eq!((c.x, c.y, c.time, c.hitsound), (256, 192, 1000, 2));
            assert!(!c.new_combo);
            assert_eq!(c.color_skip, 0);
            assert_eq!(c.extras.filename, "");
        }
        _ => panic!("expected a circle"),
    }
    match parse_hit_object("1,1,1,1,0,bad").ok().unwrap() {
        HitObject::HitCircle(c) => assert_eq!(c.extras.sample_volume, 0),
        _ => panic!("expected a circle"),
    }
}

#[test]
fn slider_fields() {
    let line = "100,100,500,6,0,P|200:200|300:100,2,140.5,2|0|8,0:0|1:2|0:0,1:2:0:0:";
    match parse_hit_object(line).ok().unwrap() {
        HitObject::Slider(s) => {
            assert_eq!(s.slider_type, SliderType::Perfect);
            assert_eq!(s.curve_points, vec![(200, 200), (300, 100)]);
            assert_eq!(s.repeat, 2);
            assert_eq!(s.pixel_length, dec(1405, 1));
            assert_eq!(s.edge_hitsounds, vec![2, 0, 8]);
            assert_eq!(s.edge_additions, vec![(0, 0), (1, 2), (0, 0)]);
            assert_eq!(s.extras.sample_set, 1);
            assert!(s.new_combo);
        }
        _ => panic!("expected a slider"),
    }
    match parse_hit_object("1,1,1,2,0,L|2:2,1,50,x|y").ok().unwrap() {
        HitObject::Slider(s) => assert!(s.edge_hitsounds.is_empty()),
        _ => panic!("expected a slider"),
    }
    assert!(matches!(parse_hit_object("1,1,1,2,0,Q|2:2,1,50"), Err(Error::Syntax(_))));
}

#[test]
fn spinner_and_hold_note() {
    match parse_hit_object("256,192,730,12,0,3983").ok().unwrap() {
        HitObject::Spinner(s) => {
            assert_eq!(s.end_time, 3983);
            assert!(s.new_combo);
        }
        _ => panic!("expected a spinner"),
    }
    match parse_hit_object("64,192,500,128,0,1000,0:0:0:0:").ok().unwrap() {
        HitObject::HoldNote(h) => assert_eq!(h.end_time, 1000),
        _ => panic!("expected a hold note"),
    }
    match parse_hit_object("64,192,500,128,0,1500:1:2:0:70:hit.wav").ok().unwrap() {
        HitObject::HoldNote(h) => {
            assert_eq!(h.end_time, 1500);
            assert_eq!((h.extras.sample_set, h.extras.addition_set, h.extras.sample_volume), (1, 2, 70));
            assert_eq!(h.extras.filename, "hit.wav");
        }
        _ => panic!("expected a hold note"),
    }
    assert!(matches!(parse_hit_object("64,192,500,128,0,x:0:0:0:0:"), Err(Error::Syntax(_))));
    assert!(matches!(parse_hit_object("64,192,500,128,0"), Err(Error::Parse)));
}

#[test]
fn tempo_track_scenario() {
    let mut track = TimingPointManager::new(vec![marker(0, dec(500, 0)), marker(1000, dec(-500, 1))]);
    track.update(1500);
    assert_eq!(dec_value(track.beat_length()), 500.0);
    assert_eq!(dec_value(track.velocity_multiplier()), 0.5);
    let bpm = track.bpm().unwrap();
    assert_eq!(bpm.num as f64 / bpm.den as f64, 120.0);
}

#[test]
fn tempo_track_progression() {
    let mut track = TimingPointManager::new(vec![
        marker(0, dec(-100, 0)),
        marker(100, dec(300, 0)),
        marker(200, dec(-25, 0)),
        marker(300, dec(600, 0)),
    ]);
    assert_eq!(track.beat_length(), dec(300, 0));
    assert_eq!(track.velocity_multiplier(), dec(1, 0));
    track.update(250);
    assert_eq!(track.beat_length(), dec(300, 0));
    assert_eq!(dec_value(track.velocity_multiplier()), 0.25);
    track.update(300);
    assert_eq!(track.beat_length(), dec(600, 0));
    assert!(track.current_inherited().is_none());
    assert_eq!(track.velocity_multiplier(), dec(1, 0));
    let only_inherited = TimingPointManager::new(vec![marker(0, dec(0, 0))]);
    assert!(only_inherited.bpm().is_none());
}

#[test]
fn minimal_document() {
    let d = OsuParser::parse_difficulty("osu file format v14\n\n[Metadata]\nTitle:Test").ok().unwrap();
    assert_eq!(d.version, 14);
    assert_eq!(d.metadata.title, "Test");
    assert_eq!(d.metadata.artist, "");
    assert!(d.metadata.tags.is_empty());
    assert_eq!(d.general.audio_filename, "");
    assert_eq!(d.general.game_mode, GameMode::Osu);
    assert_eq!(d.editor.distance_spacing, dec(122, 2));
    assert_eq!(d.editor.beat_divisor, 4);
    assert_eq!(d.editor.grid_size, 4);
    assert_eq!(d.difficulty.approach_rate, dec(0, 0));
    assert!(d.timing_points.is_empty());
    assert!(d.hit_objects.is_empty());
    assert!(d.colours.colours.is_empty());
}

#[test]
fn colours_sorted_by_number() {
    let d = OsuParser::parse_difficulty(
        "osu file format v14\n[Colours]\nCombo2:1,2,3\nCombo1:4,5,6\nSliderBorder : 7,8,9",
    )
    .ok()
    .unwrap();
    assert_eq!(d.colours.colours, vec![Colour(4, 5, 6), Colour(1, 2, 3)]);
    assert_eq!(d.colours.slider_border, Colour(7, 8, 9));
    assert_eq!(d.colours.slider_body, Colour(0, 0, 0));
    let bad = OsuParser::parse_difficulty("osu file format v14\n[Colours]\nFoo:1,2,3");
    assert!(matches!(bad, Err(Error::Syntax(_))));
    let short = OsuParser::parse_difficulty("osu file format v14\n[Colours]\nCombo1:1,2");
    assert!(matches!(short, Err(Error::Parse)));
}

#[test]
fn full_document() {
    let text = "osu file format v14\r\n\r\n[General]\r\nAudioFilename: audio.mp3\r\nAudioLeadIn: 0\r\nMode: 1\r\nUseSkinSprites: 1\r\nCountdown: 0\r\nStackLeniency: 0.7\r\n\r\n[Editor]\r\nBookmarks: 100, 200\r\nBeatDivisor: 8\r\n\r\n[Metadata]\r\nTitle:Song\r\nTags:a b  c\r\nBeatmapID:77\r\n\r\n[Difficulty]\r\nApproachRate:9.5\r\nSliderMultiplier:1.4\r\n\r\n[Events]\r\n//Background\r\n0,0,\"bg.jpg\",0,0\r\n\r\n[TimingPoints]\r\n0,500,4,2,1,60,1,0\r\n1000,-50,4,2,1,60,0,1\r\n\r\n[HitObjects]\r\n256,192,1000,5,0,0:0:0:0:\r\n256,192,2000,2,0,B|300:200|400:100,1,150\r\n";
    let d = OsuParser::parse_difficulty(text).ok().unwrap();
    assert_eq!(d.general.audio_filename, "audio.mp3");
    assert_eq!(d.general.game_mode, GameMode::Taiko);
    assert_eq!(d.general.stack_leniency, dec(7, 1));
    assert!(!d.general.countdown);
    assert_eq!(d.editor.bookmarks, vec![100, 200]);
    assert_eq!(d.editor.beat_divisor, 8);
    assert_eq!(d.editor.distance_spacing, dec(0, 0));
    assert_eq!(d.metadata.title, "Song");
    assert_eq!(d.metadata.tags, vec!["a", "b", "", "c"]);
    assert_eq!(d.metadata.beatmap_id, 77);
    assert_eq!(d.difficulty.approach_rate, dec(95, 1));
    assert_eq!(d.difficulty.slider_multiplier, dec(14, 1));
    assert_eq!(d.timing_points.len(), 2);
    assert_eq!(d.timing_points[1].ms_per_beat, dec(-50, 0));
    assert!(d.timing_points[1].kiai_mode);
    assert_eq!(d.timing_points[0].sample_set, "2");
    assert_eq!(d.hit_objects.len(), 2);
    assert!(matches!(d.hit_objects[1], HitObject::Slider(_)));
}

#[test]
fn document_errors() {
    assert!(matches!(OsuParser::parse_difficulty(""), Err(Error::Syntax(_))));
    assert!(matches!(OsuParser::parse_difficulty("osu file format v"), Err(Error::Syntax(_))));
    assert!(matches!(OsuParser::parse_difficulty("osu file format vx1"), Err(Error::Syntax(_))));
    assert!(matches!(OsuParser::parse_difficulty("osu file format v14\nTitle:x"), Err(Error::Syntax(_))));
    assert!(matches!(OsuParser::parse_difficulty("osu file format v14\n[Nope]"), Err(Error::Syntax(_))));
    assert!(matches!(
        OsuParser::parse_difficulty("osu file format v14\n[General]\nMode: 9"),
        Err(Error::Syntax(_))
    ));
    assert!(matches!(
        OsuParser::parse_difficulty("osu file format v14\n[TimingPoints]\n0,500,4"),
        Err(Error::Syntax(_))
    ));
    assert!(matches!(
        OsuParser::parse_difficulty("osu file format v14\n[HitObjects]\n1,2,3,1"),
        Err(Error::Parse)
    ));
    assert!(matches!(OsuParser::parse_difficulty("osu file format v7").map(|d| d.version), Ok(7)));
}

#[test]
fn repeated_keys_and_sections() {
    let d = OsuParser::parse_difficulty(
        "osu file format v14\n[Metadata]\nTitle: A\nTitle: B\n[Metadata]\nArtist: C",
    )
    .ok()
    .unwrap();
    assert_eq!(d.metadata.title, "");
    assert_eq!(d.metadata.artist, "C");
    let e = OsuParser::parse_difficulty("osu file format v14\n[Metadata]\nTitle:\nVersion: Hard : x").ok().unwrap();
    assert_eq!(e.metadata.title, "none");
    assert_eq!(e.metadata.version, "Hard : x");
}

#[test]
fn scanner_cursor() {
    let mut s = ParseState::new("  a  \n\n \t\nb\r\n");
    assert_eq!(s.get_current_line().as_deref(), Some("a"));
    assert_eq!(s.get_current_line().as_deref(), Some("a"));
    assert_eq!(s.read_next_line().as_deref(), Some("b"));
    assert_eq!(s.read_next_line(), None);
    assert_eq!(s.get_current_line(), None);
    let mut kv = ParseState::new("Key : value here\nnot a pair");
    assert_eq!(parse_kv_pair(&mut kv), Some(("Key".to_string(), "value here".to_string())));
    assert_eq!(parse_kv_pair(&mut kv), None);
    assert_eq!(kv.get_current_line().as_deref(), Some("not a pair"));
    let mut greedy = ParseState::new("a:b:c");
    assert_eq!(parse_kv_pair(&mut greedy), Some(("a:b".to_string(), "c".to_string())));
}

#[test]
fn bundle_lookup() {
    let mut bundle = OsuParser::new();
    bundle.add_file(
        "song [Hard].osu".to_string(),
        b"osu file format v14\n[General]\nAudioFilename: a.mp3".to_vec(),
    );
    bundle.add_file("a.mp3".to_string(), vec![1, 2, 3]);
    bundle.add_file("other.osu".to_string(), b"osu file format v14\n[General]\nAudioFilename: b.mp3".to_vec());
    bundle.add_file("bad.osu".to_string(), vec![0xff, 0xfe]);
    assert_eq!(bundle.chart_names(), vec!["song [Hard].osu", "other.osu", "bad.osu"]);
    let d = bundle.from_osu("song [Hard].osu").ok().unwrap();
    assert_eq!(d.audio_bytes, vec![1, 2, 3]);
    assert!(matches!(bundle.from_osu("other.osu"), Err(Error::Message(_))));
    assert!(matches!(bundle.from_osu("bad.osu"), Err(Error::Message(_))));
    assert!(matches!(bundle.from_osu("missing.osu"), Err(Error::Message(_))));
}

#[test]
fn bernstein_weights() {
    assert_eq!(bezier_weights(0), Some(vec![1]));
    assert_eq!(bezier_weights(3), Some(vec![1, 3, 3, 1]));
    assert_eq!(bezier_weights(4), Some(vec![1, 4, 6, 4, 1]));
    let top = bezier_weights(67).unwrap();
    assert_eq!(top.len(), 68);
    assert_eq!(top[1], 67);
    assert_eq!(top[2], 2211);
    assert_eq!(top[33], top[34]);
    assert_eq!(top[67], 1);
    assert_eq!(bezier_weights(68), None);
}

#[test]
fn kv_values_written_back() {
    let first = OsuParser::parse_difficulty(
        "osu file format v14\n[General]\nAudioLeadIn: +0042\nStackLeniency:0.70\nCountdown:-3\nAudioFilename:  a:b.mp3",
    )
    .ok()
    .unwrap();
    assert_eq!(first.general.audio_lead_in, 42);
    assert_eq!(first.general.stack_leniency, dec(70, 2));
    assert!(first.general.countdown);
    assert_eq!(first.general.audio_filename, "a:b.mp3");
    let second = OsuParser::parse_difficulty(
        "osu file format v14\n[General]\nAudioLeadIn : 42\nStackLeniency : 0.70\nCountdown : 1\nAudioFilename : a:b.mp3",
    )
    .ok()
    .unwrap();
    assert_eq!(second.general.audio_lead_in, first.general.audio_lead_in);
    assert_eq!(second.general.stack_leniency, first.general.stack_leniency);
    assert_eq!(second.general.countdown, first.general.countdown);
    assert_eq!(second.general.audio_filename, first.general.audio_filename);
}

#[test]
fn bundle_replaces_same_name() {
    let mut bundle = OsuParser::new();
    bundle.add_file("x.osu".to_string(), b"osu file format v3\n[General]\nAudioFilename: a.ogg".to_vec());
    bundle.add_file("a.ogg".to_string(), vec![1, 2, 3]);
    bundle.add_file("a.ogg".to_string(), vec![9]);
    bundle.add_file("x.osu".to_string(), b"osu file format v5\n[General]\nAudioFilename: a.ogg".to_vec());
    assert_eq!(bundle.chart_names(), vec!["x.osu"]);
    let d = bundle.from_osu("x.osu").ok().unwrap();
    assert_eq!(d.version, 5);
    assert_eq!(d.audio_bytes, vec![9]);
}

fn reason(r: Result<impl Sized, Error>) -> Option<String> {
    match r {
        Err(Error::Syntax(m)) => Some(m),
        _ => None,
    }
}

#[test]
fn error_reasons() {
    assert_eq!(reason(parse_hit_object("100,100,1000,3,0")).as_deref(), Some("Invalid hit object type"));
    assert_eq!(reason(parse_mode("4")).as_deref(), Some("Unable to parse gamemode"));
    assert_eq!(reason(parse_slider_type("X")).as_deref(), Some("Invalid slider type"));
    assert_eq!(reason(parse_bool("yes")).as_deref(), Some("Could not parse bool"));
    assert_eq!(reason(parse_num("x")).as_deref(), Some("Unable to parse number"));
    assert_eq!(
        reason(parse_extras("1:2:3:70")).as_deref(),
        Some("Unable to read field filename into struct HitObjectExtras")
    );
    assert_eq!(reason(parse_extras("1:x:3:70:a")).as_deref(), Some("Unable to parse number"));
}

#[test]
fn document_error_reasons() {
    let doc = |t: &str| reason(OsuParser::parse_difficulty(t));
    assert_eq!(doc("osu file format v").as_deref(), Some("unable to parse version string"));
    assert_eq!(doc("osu file format v14\nTitle:x").as_deref(), Some("Malformed section header"));
    assert_eq!(doc("osu file format v14\n[Nope]").as_deref(), Some("Unknown section header Nope"));
    assert_eq!(doc("osu file format v14\n[Colours]\nFoo:1,2,3").as_deref(), Some("Unknown key value"));
    assert_eq!(
        doc("osu file format v14\n[TimingPoints]\n0,500,4").as_deref(),
        Some("Unable to read field sample_set into struct TimingPoint")
    );
    assert_eq!(
        doc("osu file format v14\n[TimingPoints]\n0,500,4,2,1,60,x,0").as_deref(),
        Some("Could not parse bool")
    );
    assert_eq!(
        doc("osu file format v14\n[HitObjects]\n100,100,1000,1,0\n1,2,3,3,0").as_deref(),
        Some("Invalid hit object type")
    );
    assert_eq!(doc("osu file format v14\n[General]\nMode: 7").as_deref(), Some("Unable to parse gamemode"));
    assert_eq!(doc("osu file format v14\n[General]\nCountdown: no").as_deref(), Some("Could not parse bool"));
}

#[test]
fn missing_audio_message() {
    let mut bundle = OsuParser::new();
    bundle.add_file("x.osu".to_string(), b"osu file format v14\n[General]\nAudioFilename: gone.mp3".to_vec());
    match bundle.from_osu("x.osu") {
        Err(Error::Message(m)) => assert_eq!(m, "Failed to retrieve audio from osz"),
        _ => panic!("expected a missing-audio message"),
    }
}

#[test]
fn decimal_exponents() {
    assert_eq!(parse_decimal("1e3").ok(), Some(dec(1000, 0)));
    assert_eq!(parse_decimal("1.5E-2").ok(), Some(dec(15, 3)));
    assert_eq!(parse_decimal("-2.5e1").ok(), Some(dec(-25, 0)));
    assert_eq!(parse_decimal("1e+2").ok(), Some(dec(100, 0)));
    assert_eq!(parse_decimal("0e99999").ok(), Some(dec(0, 0)));
    assert_eq!(parse_decimal("12.5e1").ok(), Some(dec(125, 0)));
    assert!(matches!(parse_decimal("1e"), Err(Error::Syntax(_))));
    assert!(matches!(parse_decimal("e5"), Err(Error::Syntax(_))));
    assert!(matches!(parse_decimal("1e19"), Err(Error::Syntax(_))));
    assert!(matches!(parse_decimal("1e-19"), Err(Error::Syntax(_))));
}

#[test]
fn section_from_fresh_cursor() {
    let mut s = ParseState::new("\n[Events]\nsomething\n");
    assert!(matches!(parse_section(&mut s), Ok(Section::Events)));
    assert!(matches!(parse_section(&mut s), Ok(Section::End)));
    let mut bad = ParseState::new("[Nope]");
    assert_eq!(reason(parse_section(&mut bad)).as_deref(), Some("Unknown section header Nope"));
    let mut shape = ParseState::new("Title: x");
    assert_eq!(reason(parse_section(&mut shape)).as_deref(), Some("Malformed section header"));
}
