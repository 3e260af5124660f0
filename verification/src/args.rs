//! The command line.

use crate::codec::Codec;
use crate::text::{chars_of, parse_unsigned, same, strings, unsigned};
use vstd::prelude::*;
use vstd::string::StringExecFns;

verus! {

/// The RTSP port of a speaker that was neither given one nor discovered.
pub const DEFAULT_PORT: u16 = 5000;

/// What a run was asked to do.
pub struct Args {
    /// Either a literal IP or an mDNS `_raop._tcp` instance name (e.g.
    /// "Office").
    pub host: String,
    /// `None` means "use the discovered port, or 5000 if not discovering".
    pub port: Option<u16>,
    /// 0 (mute) to 100.
    pub volume: u8,
    pub codec: Codec,
    /// How far ahead of playout audio is sent, in frames.
    pub latency: u32,
    /// 0 = errors only, 1 = status (default), 2 = protocol trace.
    pub verbosity: u8,
}

/// Why a command line was not accepted.
pub enum ArgsError {
    /// The help was asked for.
    Help,
    /// No host was given.
    HostRequired,
    /// An option that takes a value came last.
    MissingValue(String),
    BadPort,
    BadVolume,
    BadLatency,
    BadCodec,
    Unknown(String),
}

/// An `Args`, or one in the making, as a value.
pub struct ArgsView {
    pub host: Option<Seq<char>>,
    pub port: Option<u16>,
    pub volume: u8,
    pub codec: Codec,
    pub latency: u32,
    pub verbosity: u8,
}

/// An `ArgsError` as a value.
pub enum ArgsErrorView {
    Help,
    HostRequired,
    MissingValue(Seq<char>),
    BadPort,
    BadVolume,
    BadLatency,
    BadCodec,
    Unknown(Seq<char>),
}

impl View for Args {
    type V = ArgsView;

    open spec fn view(&self) -> ArgsView {
        ArgsView {
            host: Some(self.host@),
            port: self.port,
            volume: self.volume,
            codec: self.codec,
            latency: self.latency,
            verbosity: self.verbosity,
        }
    }
}

impl View for ArgsError {
    type V = ArgsErrorView;

    open spec fn view(&self) -> ArgsErrorView {
        match self {
            ArgsError::Help => ArgsErrorView::Help,
            ArgsError::HostRequired => ArgsErrorView::HostRequired,
            ArgsError::MissingValue(s) => ArgsErrorView::MissingValue(s@),
            ArgsError::BadPort => ArgsErrorView::BadPort,
            ArgsError::BadVolume => ArgsErrorView::BadVolume,
            ArgsError::BadLatency => ArgsErrorView::BadLatency,
            ArgsError::BadCodec => ArgsErrorView::BadCodec,
            ArgsError::Unknown(s) => ArgsErrorView::Unknown(s@),
        }
    }
}

/// What holds unless an option says otherwise.
pub open spec fn defaults() -> ArgsView {
    ArgsView { host: None, port: None, volume: 50, codec: Codec::Alac, latency: 88200, verbosity: 1 }
}

/// Whether an option is followed by a value.
pub open spec fn takes_value(flag: Seq<char>) -> bool {
    flag == "--host"@ || flag == "--port"@ || flag == "--volume"@ || flag == "--latency"@ || flag == "--codec"@
}

/// What an option with a value says.
pub open spec fn with_value(a: ArgsView, flag: Seq<char>, value: Seq<char>) -> Result<ArgsView, ArgsErrorView> {
    if flag == "--host"@ {
        Ok(ArgsView { host: Some(value), ..a })
    } else if flag == "--port"@ {
        match unsigned(value, 0xFFFF) {
            Some(n) => Ok(ArgsView { port: Some(n as u16), ..a }),
            None => Err(ArgsErrorView::BadPort),
        }
    } else if flag == "--volume"@ {
        match unsigned(value, 0xFF) {
            Some(n) => Ok(ArgsView { volume: n as u8, ..a }),
            None => Err(ArgsErrorView::BadVolume),
        }
    } else if flag == "--latency"@ {
        match unsigned(value, 0xFFFF_FFFF) {
            Some(n) => Ok(ArgsView { latency: n as u32, ..a }),
            None => Err(ArgsErrorView::BadLatency),
        }
    } else {
        if value == "alac"@ {
            Ok(ArgsView { codec: Codec::Alac, ..a })
        } else if value == "pcm"@ {
            Ok(ArgsView { codec: Codec::Pcm, ..a })
        } else {
            Err(ArgsErrorView::BadCodec)
        }
    }
}

/// What the options say, from left to right; the first mistake decides.
pub open spec fn options(a: ArgsView, args: Seq<Seq<char>>) -> Result<ArgsView, ArgsErrorView>
    decreases args.len(),
{
    if args.len() == 0 {
        Ok(a)
    } else if takes_value(args[0]) {
        if args.len() < 2 {
            Err(ArgsErrorView::MissingValue(args[0]))
        } else {
            match with_value(a, args[0], args[1]) {
                Ok(b) => options(b, args.skip(2)),
                Err(e) => Err(e),
            }
        }
    } else if args[0] == "-q"@ || args[0] == "--quiet"@ {
        options(ArgsView { verbosity: 0, ..a }, args.skip(1))
    } else if args[0] == "-v"@ || args[0] == "--verbose"@ {
        options(ArgsView { verbosity: 2, ..a }, args.skip(1))
    } else if args[0] == "-h"@ || args[0] == "--help"@ {
        Err(ArgsErrorView::Help)
    } else {
        Err(ArgsErrorView::Unknown(args[0]))
    }
}

/// What a command line says: there must be a host, and a volume above 100
/// means 100.
pub open spec fn command_line(args: Seq<Seq<char>>) -> Result<ArgsView, ArgsErrorView> {
    match options(defaults(), args) {
        Ok(a) => if a.host is None {
            Err(ArgsErrorView::HostRequired)
        } else {
            Ok(ArgsView { volume: if a.volume > 100 { 100 } else { a.volume }, ..a })
        },
        Err(e) => Err(e),
    }
}

/// Whether an outcome is the given one.
pub open spec fn is_outcome(r: Result<Args, ArgsError>, v: Result<ArgsView, ArgsErrorView>) -> bool {
    match v {
        Ok(a) => r matches Ok(args) && args@ == a,
        Err(e) => r matches Err(err) && err@ == e,
    }
}

fn number(value: &str, max: u64) -> (r: Option<u64>)
    ensures
        r is Some <==> unsigned(value@, max as nat) is Some,
        r matches Some(n) ==> unsigned(value@, max as nat) == Some(n as nat),
{
    parse_unsigned(chars_of(value).as_slice(), max)
}

/// Read the command line (without the name of the program).
pub fn parse_args(args: &[String]) -> (r: Result<Args, ArgsError>)
    ensures
        is_outcome(r, command_line(strings(args@))),
{
    let ghost all = strings(args@);
    let mut host: Option<String> = None;
    let mut port: Option<u16> = None;
    let mut volume: u8 = 50;
    let mut codec: Codec = Codec::Alac;
    let mut latency: u32 = 88200;
    let mut verbosity: u8 = 1;
    let mut i: usize = 0;
    let ghost mut now: ArgsView = defaults();
    assert(all.skip(0) =~= all);
    while i < args.len()
        invariant
            i <= args@.len(),
            all == strings(args@),
            all.len() == args@.len(),
            now == (ArgsView {
                host: match host {
                    Some(h) => Some(h@),
                    None => None,
                },
                port,
                volume,
                codec,
                latency,
                verbosity,
            }),
            options(defaults(), all) == options(now, all.skip(i as int)),
        decreases args@.len() - i,
    {
        let a: &str = args[i].as_str();
        let ghost rest = all.skip(i as int);
        assert(rest[0] == a@);
        if same(a, "-q") || same(a, "--quiet") {
            proof {
                lemma_flags_differ();
                assert(rest.skip(1) =~= all.skip(i + 1));
                now = ArgsView { verbosity: 0, ..now };
            }
            verbosity = 0;
            i = i + 1;
        } else if same(a, "-v") || same(a, "--verbose") {
            proof {
                lemma_flags_differ();
                assert(rest.skip(1) =~= all.skip(i + 1));
                now = ArgsView { verbosity: 2, ..now };
            }
            verbosity = 2;
            i = i + 1;
        } else if same(a, "-h") || same(a, "--help") {
            proof {
                lemma_flags_differ();
            }
            return Err(ArgsError::Help);
        } else if same(a, "--host") || same(a, "--port") || same(a, "--volume") || same(a, "--latency") || same(
            a,
            "--codec",
        ) {
            if i + 1 >= args.len() {
                return Err(ArgsError::MissingValue(a.to_owned()));
            }
            let value: &str = args[i + 1].as_str();
            assert(rest[1] == value@);
            if same(a, "--host") {
                host = Some(value.to_owned());
            } else if same(a, "--port") {
                port = match number(value, 0xFFFF) {
                    Some(n) => Some(n as u16),
                    None => {
                        return Err(ArgsError::BadPort);
                    },
                };
            } else if same(a, "--volume") {
                volume = match number(value, 0xFF) {
                    Some(n) => n as u8,
                    None => {
                        return Err(ArgsError::BadVolume);
                    },
                };
            } else if same(a, "--latency") {
                latency = match number(value, 0xFFFF_FFFF) {
                    Some(n) => n as u32,
                    None => {
                        return Err(ArgsError::BadLatency);
                    },
                };
            } else if same(value, "alac") {
                codec = Codec::Alac;
            } else if same(value, "pcm") {
                codec = Codec::Pcm;
            } else {
                return Err(ArgsError::BadCodec);
            }
            proof {
                now = with_value(now, a@, value@)->Ok_0;
                assert(rest.skip(2) =~= all.skip(i + 2));
            }
            i = i + 2;
        } else {
            return Err(ArgsError::Unknown(a.to_owned()));
        }
    }
    assert(options(now, all.skip(i as int)) == Ok::<ArgsView, ArgsErrorView>(now));
    match host {
        Some(host) => Ok(
            Args {
                host,
                port,
                volume: if volume > 100 {
                    100
                } else {
                    volume
                },
                codec,
                latency,
                verbosity,
            },
        ),
        None => Err(ArgsError::HostRequired),
    }
}

/// The options without a value are none of those with one.
proof fn lemma_flags_differ()
    ensures
        !takes_value("-q"@),
        !takes_value("--quiet"@),
        !takes_value("-v"@),
        !takes_value("--verbose"@),
        !takes_value("-h"@),
        !takes_value("--help"@),
        "-v"@ != "-q"@,
        "-v"@ != "--quiet"@,
        "--verbose"@ != "-q"@,
        "--verbose"@ != "--quiet"@,
        "-h"@ != "-q"@,
        "-h"@ != "--quiet"@,
        "-h"@ != "-v"@,
        "-h"@ != "--verbose"@,
        "--help"@ != "-q"@,
        "--help"@ != "--quiet"@,
        "--help"@ != "-v"@,
        "--help"@ != "--verbose"@,
{
    reveal_strlit("-q");
    reveal_strlit("--quiet");
    reveal_strlit("-v");
    reveal_strlit("--verbose");
    reveal_strlit("-h");
    reveal_strlit("--help");
    reveal_strlit("--host");
    reveal_strlit("--port");
    reveal_strlit("--volume");
    reveal_strlit("--latency");
    reveal_strlit("--codec");
    assert("-q"@[1] == 'q' && "-v"@[1] == 'v' && "-h"@[1] == 'h');
    assert("--quiet"@[2] == 'q' && "--verbose"@[2] == 'v' && "--help"@[2] == 'h');
    assert("--host"@[3] == 'o' && "--help"@[3] == 'e' && "--verbose"@[3] == 'e' && "--volume"@[3] == 'o');
}

/// What to tell the user.
pub open spec fn args_error_text(e: ArgsErrorView) -> Seq<char> {
    match e {
        ArgsErrorView::Help => Seq::<char>::empty(),
        ArgsErrorView::HostRequired => "--host is required\n"@,
        ArgsErrorView::MissingValue(flag) => flag + " needs a value"@,
        ArgsErrorView::BadPort => "bad --port"@,
        ArgsErrorView::BadVolume => "bad --volume"@,
        ArgsErrorView::BadLatency => "bad --latency"@,
        ArgsErrorView::BadCodec => "--codec must be alac or pcm"@,
        ArgsErrorView::Unknown(arg) => "unknown argument: "@ + arg,
    }
}

impl ArgsError {
    /// What to tell the user; nothing, where the help was asked for.
    pub fn message(&self) -> (s: String)
        ensures
            s@ == args_error_text(self@),
    {
        match self {
            ArgsError::Help => String::new(),
            ArgsError::HostRequired => "--host is required\n".to_owned(),
            ArgsError::MissingValue(flag) => {
                let mut s: String = flag.clone();
                s.append(" needs a value");
                s
            },
            ArgsError::BadPort => "bad --port".to_owned(),
            ArgsError::BadVolume => "bad --volume".to_owned(),
            ArgsError::BadLatency => "bad --latency".to_owned(),
            ArgsError::BadCodec => "--codec must be alac or pcm".to_owned(),
            ArgsError::Unknown(arg) => {
                let mut s: String = "unknown argument: ".to_owned();
                s.append(arg.as_str());
                s
            },
        }
    }
}

/// The port of a speaker.
pub open spec fn chosen_port(given: Option<u16>, discovered: Option<u16>) -> u16 {
    match (given, discovered) {
        (Some(p), _) => p,
        (None, Some(p)) => p,
        (None, None) => DEFAULT_PORT,
    }
}

/// A port that was given is used whatever was discovered, a discovered one
/// where none was given, and 5000 where there is neither.
pub proof fn lemma_port_choice(p: u16, other: Option<u16>)
    ensures
        chosen_port(Some(p), other) == p,
        chosen_port(None, Some(p)) == p,
        chosen_port(None, None) == 5000,
{
}

/// The port to connect to: the one that was given, or else the one that was
/// discovered, or else the default.
pub fn rtsp_port(given: Option<u16>, discovered: Option<u16>) -> (port: u16)
    ensures
        port == chosen_port(given, discovered),
        port == match (given, discovered) {
            (Some(p), _) => p,
            (None, Some(p)) => p,
            (None, None) => DEFAULT_PORT,
        },
{
    match given {
        Some(p) => p,
        None => match discovered {
            Some(p) => p,
            None => DEFAULT_PORT,
        },
    }
}

/// A host alone is a complete command line, with every option at its default:
/// volume 50, ALAC, a latency of 88200 frames, status lines.
pub proof fn lemma_defaults(host: Seq<char>)
    ensures
        command_line(seq!["--host"@, host]) == Ok::<ArgsView, ArgsErrorView>(
            ArgsView {
                host: Some(host),
                port: None,
                volume: 50,
                codec: Codec::Alac,
                latency: 88200,
                verbosity: 1,
            },
        ),
{
    let args = seq!["--host"@, host];
    assert(args.skip(2) =~= Seq::<Seq<char>>::empty());
    reveal_with_fuel(options, 2);
}

/// The volume of an accepted command line is at most 100.
pub proof fn lemma_volume_is_capped(args: Seq<Seq<char>>)
    ensures
        command_line(args) matches Ok(a) ==> a.volume <= 100 && a.host is Some,
{
}

proof fn lemma_options_compose(a: ArgsView, front: Seq<Seq<char>>, back: Seq<Seq<char>>)
    requires
        options(a, front) is Ok,
    ensures
        options(a, front + back) == options(options(a, front)->Ok_0, back),
    decreases front.len(),
{
    if front.len() == 0 {
        assert(front + back =~= back);
    } else if takes_value(front[0]) {
        assert((front + back).skip(2) =~= front.skip(2) + back);
        lemma_options_compose(with_value(a, front[0], front[1])->Ok_0, front.skip(2), back);
    } else {
        assert((front + back).skip(1) =~= front.skip(1) + back);
        let v: u8 = if front[0] == "-q"@ || front[0] == "--quiet"@ { 0 } else { 2 };
        lemma_options_compose(ArgsView { verbosity: v, ..a }, front.skip(1), back);
    }
}

/// Of an option that comes more than once, the last one counts: an accepted
/// option behind others sets what it sets, and leaves the rest as they said.
pub proof fn lemma_last_option_counts(front: Seq<Seq<char>>, flag: Seq<char>, value: Seq<char>)
    requires
        options(defaults(), front) is Ok,
        takes_value(flag),
    ensures
        options(defaults(), front + seq![flag, value]) == with_value(
            options(defaults(), front)->Ok_0,
            flag,
            value,
        ),
{
    let back = seq![flag, value];
    lemma_options_compose(defaults(), front, back);
    assert(back.skip(2) =~= Seq::<Seq<char>>::empty());
    reveal_with_fuel(options, 2);
}

// ---------------------------------------------------------------------------
// What each option does

proof fn lemma_value_behind(front: Seq<Seq<char>>, flag: Seq<char>, value: Seq<char>)
    requires
        options(defaults(), front) is Ok,
        takes_value(flag),
    ensures
        options(defaults(), front + seq![flag, value]) == with_value(options(defaults(), front)->Ok_0, flag, value),
        options(defaults(), front + seq![flag]) == Err::<ArgsView, ArgsErrorView>(ArgsErrorView::MissingValue(flag)),
{
    lemma_last_option_counts(front, flag, value);
    lemma_options_compose(defaults(), front, seq![flag]);
}

proof fn lemma_value_flags_differ()
    ensures
        "--port"@ != "--host"@,
        "--volume"@ != "--host"@,
        "--volume"@ != "--port"@,
        "--latency"@ != "--host"@,
        "--latency"@ != "--port"@,
        "--latency"@ != "--volume"@,
        "--codec"@ != "--host"@,
        "--codec"@ != "--port"@,
        "--codec"@ != "--volume"@,
        "--codec"@ != "--latency"@,
        "pcm"@ != "alac"@,
{
    reveal_strlit("--host");
    reveal_strlit("--port");
    reveal_strlit("--volume");
    reveal_strlit("--latency");
    reveal_strlit("--codec");
    reveal_strlit("pcm");
    reveal_strlit("alac");
    assert("--host"@[2] == 'h' && "--port"@[2] == 'p' && "--volume"@[2] == 'v' && "--latency"@[2] == 'l'
        && "--codec"@[2] == 'c');
    assert("pcm"@[0] == 'p' && "alac"@[0] == 'a');
}

/// `--host` takes any text, whatever stands in front of it.
pub proof fn lemma_host_option(front: Seq<Seq<char>>, value: Seq<char>)
    requires
        options(defaults(), front) is Ok,
    ensures
        options(defaults(), front + seq!["--host"@, value]) == Ok::<ArgsView, ArgsErrorView>(
            ArgsView { host: Some(value), ..options(defaults(), front)->Ok_0 },
        ),
        options(defaults(), front + seq!["--host"@]) == Err::<ArgsView, ArgsErrorView>(
            ArgsErrorView::MissingValue("--host"@),
        ),
{
    lemma_value_behind(front, "--host"@, value);
}

/// `--port` takes a number up to 65535, and nothing else.
pub proof fn lemma_port_option(front: Seq<Seq<char>>, value: Seq<char>)
    requires
        options(defaults(), front) is Ok,
    ensures
        options(defaults(), front + seq!["--port"@, value]) == match unsigned(value, 65_535) {
            Some(n) => Ok::<ArgsView, ArgsErrorView>(
                ArgsView { port: Some(n as u16), ..options(defaults(), front)->Ok_0 },
            ),
            None => Err::<ArgsView, ArgsErrorView>(ArgsErrorView::BadPort),
        },
        options(defaults(), front + seq!["--port"@]) == Err::<ArgsView, ArgsErrorView>(
            ArgsErrorView::MissingValue("--port"@),
        ),
{
    lemma_value_flags_differ();
    lemma_value_behind(front, "--port"@, value);
}

/// `--volume` takes a number up to 255, of which an accepted command line makes
/// at most 100.
pub proof fn lemma_volume_option(front: Seq<Seq<char>>, value: Seq<char>)
    requires
        options(defaults(), front) is Ok,
    ensures
        options(defaults(), front + seq!["--volume"@, value]) == match unsigned(value, 255) {
            Some(n) => Ok::<ArgsView, ArgsErrorView>(
                ArgsView { volume: n as u8, ..options(defaults(), front)->Ok_0 },
            ),
            None => Err::<ArgsView, ArgsErrorView>(ArgsErrorView::BadVolume),
        },
        options(defaults(), front + seq!["--volume"@]) == Err::<ArgsView, ArgsErrorView>(
            ArgsErrorView::MissingValue("--volume"@),
        ),
{
    lemma_value_flags_differ();
    lemma_value_behind(front, "--volume"@, value);
}

/// `--latency` takes a number up to 4294967295.
pub proof fn lemma_latency_option(front: Seq<Seq<char>>, value: Seq<char>)
    requires
        options(defaults(), front) is Ok,
    ensures
        options(defaults(), front + seq!["--latency"@, value]) == match unsigned(value, 4_294_967_295) {
            Some(n) => Ok::<ArgsView, ArgsErrorView>(
                ArgsView { latency: n as u32, ..options(defaults(), front)->Ok_0 },
            ),
            None => Err::<ArgsView, ArgsErrorView>(ArgsErrorView::BadLatency),
        },
        options(defaults(), front + seq!["--latency"@]) == Err::<ArgsView, ArgsErrorView>(
            ArgsErrorView::MissingValue("--latency"@),
        ),
{
    lemma_value_flags_differ();
    lemma_value_behind(front, "--latency"@, value);
}

/// `--codec` takes "alac" or "pcm".
pub proof fn lemma_codec_option(front: Seq<Seq<char>>, value: Seq<char>)
    requires
        options(defaults(), front) is Ok,
    ensures
        options(defaults(), front + seq!["--codec"@, "alac"@]) == Ok::<ArgsView, ArgsErrorView>(
            ArgsView { codec: Codec::Alac, ..options(defaults(), front)->Ok_0 },
        ),
        options(defaults(), front + seq!["--codec"@, "pcm"@]) == Ok::<ArgsView, ArgsErrorView>(
            ArgsView { codec: Codec::Pcm, ..options(defaults(), front)->Ok_0 },
        ),
        value != "alac"@ && value != "pcm"@ ==> options(defaults(), front + seq!["--codec"@, value]) == Err::<
            ArgsView,
            ArgsErrorView,
        >(ArgsErrorView::BadCodec),
        options(defaults(), front + seq!["--codec"@]) == Err::<ArgsView, ArgsErrorView>(
            ArgsErrorView::MissingValue("--codec"@),
        ),
{
    lemma_value_flags_differ();
    lemma_value_behind(front, "--codec"@, value);
    lemma_value_behind(front, "--codec"@, "alac"@);
    lemma_value_behind(front, "--codec"@, "pcm"@);
}

/// The options without a value: `-q` and `--quiet` say errors only, `-v` and
/// `--verbose` a trace, `-h` and `--help` ask for the help whatever follows.
/// Anything else is unknown.
pub proof fn lemma_plain_options(front: Seq<Seq<char>>, arg: Seq<char>, more: Seq<Seq<char>>)
    requires
        options(defaults(), front) is Ok,
    ensures
        arg == "-q"@ || arg == "--quiet"@ ==> options(defaults(), front + seq![arg]) == Ok::<ArgsView, ArgsErrorView>(
            ArgsView { verbosity: 0, ..options(defaults(), front)->Ok_0 },
        ),
        arg == "-v"@ || arg == "--verbose"@ ==> options(defaults(), front + seq![arg]) == Ok::<
            ArgsView,
            ArgsErrorView,
        >(ArgsView { verbosity: 2, ..options(defaults(), front)->Ok_0 }),
        arg == "-h"@ || arg == "--help"@ ==> options(defaults(), front + (seq![arg] + more)) == Err::<
            ArgsView,
            ArgsErrorView,
        >(ArgsErrorView::Help),
        arg != "-q"@ && arg != "--quiet"@ && arg != "-v"@ && arg != "--verbose"@ && arg != "-h"@ && arg != "--help"@
            && arg != "--host"@ && arg != "--port"@ && arg != "--volume"@ && arg != "--latency"@ && arg
            != "--codec"@ ==> options(defaults(), front + (seq![arg] + more)) == Err::<ArgsView, ArgsErrorView>(
            ArgsErrorView::Unknown(arg),
        ),
{
    lemma_flags_differ();
    lemma_options_compose(defaults(), front, seq![arg]);
    lemma_options_compose(defaults(), front, seq![arg] + more);
    assert(seq![arg].skip(1) =~= Seq::<Seq<char>>::empty());
    assert((seq![arg] + more)[0] == arg);
    reveal_with_fuel(options, 2);
}

/// The first mistake decides: what stands behind it does not matter.
pub proof fn lemma_first_mistake_decides(front: Seq<Seq<char>>, back: Seq<Seq<char>>)
    requires
        options(defaults(), front) matches Err(e) && !(e is MissingValue),
    ensures
        options(defaults(), front + back) == options(defaults(), front),
{
    lemma_mistake_stays(defaults(), front, back);
}

proof fn lemma_mistake_stays(a: ArgsView, front: Seq<Seq<char>>, back: Seq<Seq<char>>)
    requires
        options(a, front) matches Err(e) && !(e is MissingValue),
    ensures
        options(a, front + back) == options(a, front),
    decreases front.len(),
{
    let all = front + back;
    if front.len() > 0 {
        assert(all[0] == front[0]);
        if takes_value(front[0]) {
            assert(all[1] == front[1]);
            if let Ok(b) = with_value(a, front[0], front[1]) {
                assert(all.skip(2) =~= front.skip(2) + back);
                lemma_mistake_stays(b, front.skip(2), back);
            }
        } else if front[0] == "-q"@ || front[0] == "--quiet"@ {
            assert(all.skip(1) =~= front.skip(1) + back);
            lemma_mistake_stays(ArgsView { verbosity: 0, ..a }, front.skip(1), back);
        } else if front[0] == "-v"@ || front[0] == "--verbose"@ {
            assert(all.skip(1) =~= front.skip(1) + back);
            lemma_mistake_stays(ArgsView { verbosity: 2, ..a }, front.skip(1), back);
        }
    }
}

/// A command line is accepted exactly where its options are and there is a
/// host; it is what they say, but for a volume above 100, which is 100.
pub proof fn lemma_command_line(args: Seq<Seq<char>>)
    ensures
        options(defaults(), Seq::<Seq<char>>::empty()) == Ok::<ArgsView, ArgsErrorView>(
            ArgsView { host: None, port: None, volume: 50, codec: Codec::Alac, latency: 88200, verbosity: 1 },
        ),
        match options(defaults(), args) {
            Err(e) => command_line(args) == Err::<ArgsView, ArgsErrorView>(e),
            Ok(a) => match command_line(args) {
                Ok(c) => a.host is Some && c.host == a.host && c.port == a.port && c.codec == a.codec && c.latency
                    == a.latency && c.verbosity == a.verbosity && c.volume <= 100 && (a.volume <= 100 ==> c.volume
                    == a.volume) && (a.volume > 100 ==> c.volume == 100),
                Err(e) => a.host is None && e is HostRequired,
            },
        },
{
}

/// What came out is what the command line says, field by field.
pub proof fn lemma_outcome(r: Result<Args, ArgsError>, v: Result<ArgsView, ArgsErrorView>)
    requires
        is_outcome(r, v),
    ensures
        r is Ok <==> v is Ok,
        r matches Ok(a) ==> ({
            let w = v->Ok_0;
            &&& w.host == Some(a.host@)
            &&& w.port == a.port
            &&& w.volume == a.volume
            &&& w.codec == a.codec
            &&& w.latency == a.latency
            &&& w.verbosity == a.verbosity
        }),
        r matches Err(e) ==> ({
            let w = v->Err_0;
            &&& w is Help <==> e is Help
            &&& w is HostRequired <==> e is HostRequired
            &&& w is BadPort <==> e is BadPort
            &&& w is BadVolume <==> e is BadVolume
            &&& w is BadLatency <==> e is BadLatency
            &&& w is BadCodec <==> e is BadCodec
            &&& w matches ArgsErrorView::MissingValue(flag) ==> (e matches ArgsError::MissingValue(f) && f@ == flag)
            &&& w matches ArgsErrorView::Unknown(arg) ==> (e matches ArgsError::Unknown(a) && a@ == arg)
        }),
{
}

/// A mistake is named, with the argument that it is about.
pub proof fn lemma_mistake_text(text: Seq<char>)
    ensures
        args_error_text(ArgsErrorView::MissingValue(text)) == text + " needs a value"@,
        args_error_text(ArgsErrorView::Unknown(text)) == "unknown argument: "@ + text,
        args_error_text(ArgsErrorView::HostRequired) == "--host is required\n"@,
        args_error_text(ArgsErrorView::BadPort) == "bad --port"@,
        args_error_text(ArgsErrorView::BadVolume) == "bad --volume"@,
        args_error_text(ArgsErrorView::BadLatency) == "bad --latency"@,
        args_error_text(ArgsErrorView::BadCodec) == "--codec must be alac or pcm"@,
        args_error_text(ArgsErrorView::Help) == Seq::<char>::empty(),
{
}

} // verus!
