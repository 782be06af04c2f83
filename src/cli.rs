//! Reading the command line into run settings.
use vstd::prelude::*;
use crate::text::str_eq;

verus! {

/// The value `s` has as a decimal numeral of ASCII digits.
pub open spec fn digits_value(s: Seq<char>) -> nat
    decreases s.len(),
{
    if s.len() == 0 {
        0
    } else {
        digits_value(s.drop_last()) * 10 + (s.last() as nat - '0' as nat) as nat
    }
}

/// The unsigned 32-bit number that `s` writes: an optional `+`, then at
/// least one ASCII digit, with a value that fits.
pub open spec fn numeral_u32(s: Seq<char>) -> Option<u32> {
    let d = if s.len() > 0 && s[0] == '+' { s.drop_first() } else { s };
    if d.len() > 0 && (forall|i: int| 0 <= i < d.len() ==> '0' <= #[trigger] d[i] <= '9')
        && digits_value(d) <= u32::MAX {
        Some(digits_value(d) as u32)
    } else {
        None
    }
}

/// Relies on `<u32 as FromStr>::from_str`, which accepts exactly an
/// optional `+` followed by decimal digits whose value fits in a `u32`.
#[verifier::external_body]
fn parse_u32(s: &str) -> (r: Option<u32>)
    ensures
        r == numeral_u32(s@),
{
    s.parse::<u32>().ok()
}

/// Something on the command line that was not taken as given.
#[derive(PartialEq, Eq, Structural, Clone, Copy, Debug)]
pub enum Note {
    /// The frame rate at argument `at` is no number; the value `kept` stays.
    InvalidFps { at: usize, kept: u32 },
    /// The bitrate at argument `at` is no number; the value `kept` stays.
    InvalidBitrate { at: usize, kept: u32 },
    /// The argument at this index is no known option and not the input path.
    Unknown(usize),
}

/// What one run is asked to do. Empty paths stand for "not given".
pub struct Settings {
    pub fps: u32,
    pub resolution: String,
    pub bitrate: u32,
    pub result_folder: String,
    pub temp_folder: String,
    pub extension: String,
    pub transcoder: String,
    pub input: String,
    pub notes: Vec<Note>,
}

/// `Settings` as plain values.
pub struct SettingsModel {
    pub fps: u32,
    pub resolution: Seq<char>,
    pub bitrate: u32,
    pub result_folder: Seq<char>,
    pub temp_folder: Seq<char>,
    pub extension: Seq<char>,
    pub transcoder: Seq<char>,
    pub input: Seq<char>,
    pub notes: Seq<Note>,
}

impl Settings {
    /// The settings as plain values.
    pub open spec fn model(&self) -> SettingsModel {
        SettingsModel {
            fps: self.fps,
            resolution: self.resolution@,
            bitrate: self.bitrate,
            result_folder: self.result_folder@,
            temp_folder: self.temp_folder@,
            extension: self.extension@,
            transcoder: self.transcoder@,
            input: self.input@,
            notes: self.notes@,
        }
    }
}

/// The settings before any argument is read: 30 frames per second,
/// `720p`, 3000 kbit/s, and nothing else given.
pub open spec fn default_settings() -> SettingsModel {
    SettingsModel {
        fps: 30,
        resolution: "720p"@,
        bitrate: 3000,
        result_folder: Seq::empty(),
        temp_folder: Seq::empty(),
        extension: Seq::empty(),
        transcoder: Seq::empty(),
        input: Seq::empty(),
        notes: Seq::empty(),
    }
}

/// `s` begins with two dashes.
pub open spec fn is_option_like(s: Seq<char>) -> bool {
    s.len() >= 2 && s[0] == '-' && s[1] == '-'
}

/// The settings after reading the arguments from index `i` on into `m`.
/// An option that takes a value reads the next argument when there is
/// one; the last argument, when it does not begin with two dashes, is
/// the input path; anything else is noted as unknown.
pub open spec fn read_from(args: Seq<Seq<char>>, i: int, m: SettingsModel) -> SettingsModel
    decreases args.len() - i,
{
    if i < 0 || i >= args.len() {
        m
    } else {
        let a = args[i];
        let has_value = i + 1 < args.len();
        let v = if has_value { args[i + 1] } else { Seq::empty() };
        let next = if has_value { i + 2 } else { i + 1 };
        if a == "--fps"@ {
            if !has_value {
                read_from(args, next, m)
            } else {
                match numeral_u32(v) {
                    Some(n) => read_from(args, next, SettingsModel { fps: n, ..m }),
                    None => read_from(args, next, SettingsModel { notes: m.notes.push(Note::InvalidFps { at: (i + 1) as usize, kept: m.fps }), ..m }),
                }
            }
        } else if a == "--bitrate"@ {
            if !has_value {
                read_from(args, next, m)
            } else {
                match numeral_u32(v) {
                    Some(n) => read_from(args, next, SettingsModel { bitrate: n, ..m }),
                    None => read_from(args, next, SettingsModel { notes: m.notes.push(Note::InvalidBitrate { at: (i + 1) as usize, kept: m.bitrate }), ..m }),
                }
            }
        } else if a == "--resolution"@ {
            read_from(args, next, if has_value { SettingsModel { resolution: v, ..m } } else { m })
        } else if a == "--resultFolder"@ {
            read_from(args, next, if has_value { SettingsModel { result_folder: v, ..m } } else { m })
        } else if a == "--tempFolder"@ {
            read_from(args, next, if has_value { SettingsModel { temp_folder: v, ..m } } else { m })
        } else if a == "--extension"@ {
            read_from(args, next, if has_value { SettingsModel { extension: v, ..m } } else { m })
        } else if a == "--ffmpegPath"@ {
            read_from(args, next, if has_value { SettingsModel { transcoder: v, ..m } } else { m })
        } else if i == args.len() - 1 && !is_option_like(a) {
            read_from(args, i + 1, SettingsModel { input: a, ..m })
        } else {
            read_from(args, i + 1, SettingsModel { notes: m.notes.push(Note::Unknown(i as usize)), ..m })
        }
    }
}

/// The arguments as sequences of characters.
pub open spec fn args_view(args: Vec<String>) -> Seq<Seq<char>> {
    args@.map_values(|s: String| s@)
}

/// Tells whether `s` begins with two dashes.
fn starts_with_dashes(s: &str) -> (r: bool)
    ensures
        r == is_option_like(s@),
{
    s.unicode_len() >= 2 && s.get_char(0) == '-' && s.get_char(1) == '-'
}

/// Reads the command line `args`, whose first element is the program's
/// name, into settings, starting from the defaults.
pub fn read_settings(args: &Vec<String>) -> (r: Settings)
    ensures
        r.model() == read_from(args_view(*args), 1, default_settings()),
{
    let ghost av = args_view(*args);
    let mut st = Settings {
        fps: 30,
        resolution: "720p".to_owned(),
        bitrate: 3000,
        result_folder: String::new(),
        temp_folder: String::new(),
        extension: String::new(),
        transcoder: String::new(),
        input: String::new(),
        notes: Vec::new(),
    };
    assert(st.model().notes =~= Seq::<Note>::empty());
    assert(st.model() == default_settings());
    let n = args.len();
    let mut i: usize = 1;
    while i < n
        invariant
            n == args.len(),
            av == args_view(*args),
            av.len() == n,
            1 <= i,
            read_from(av, i as int, st.model()) == read_from(av, 1, default_settings()),
        decreases n - i,
    {
        let a = args[i].as_str();
        let has_value = i + 1 < n;
        let ghost m = st.model();
        let ghost i0: int = i as int;
        assert(av[i as int] == a@);
        if has_value {
            assert(av[i + 1] == args@[i + 1]@);
        }
        if str_eq(a, "--fps") {
            if has_value {
                match parse_u32(args[i + 1].as_str()) {
                    Some(v) => st.fps = v,
                    None => st.notes.push(Note::InvalidFps { at: i + 1, kept: st.fps }),
                }
                i = i + 1;
            }
        } else if str_eq(a, "--bitrate") {
            if has_value {
                match parse_u32(args[i + 1].as_str()) {
                    Some(v) => st.bitrate = v,
                    None => st.notes.push(Note::InvalidBitrate { at: i + 1, kept: st.bitrate }),
                }
                i = i + 1;
            }
        } else if str_eq(a, "--resolution") {
            if has_value {
                st.resolution = args[i + 1].clone();
                i = i + 1;
            }
        } else if str_eq(a, "--resultFolder") {
            if has_value {
                st.result_folder = args[i + 1].clone();
                i = i + 1;
            }
        } else if str_eq(a, "--tempFolder") {
            if has_value {
                st.temp_folder = args[i + 1].clone();
                i = i + 1;
            }
        } else if str_eq(a, "--extension") {
            if has_value {
                st.extension = args[i + 1].clone();
                i = i + 1;
            }
        } else if str_eq(a, "--ffmpegPath") {
            if has_value {
                st.transcoder = args[i + 1].clone();
                i = i + 1;
            }
        } else if i == n - 1 && !starts_with_dashes(a) {
            st.input = args[i].clone();
        } else {
            st.notes.push(Note::Unknown(i));
        }
        i = i + 1;
        assert(read_from(av, i0, m) == read_from(av, i as int, st.model()));
    }
    st
}

} // verus!
