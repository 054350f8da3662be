//! Arguments of the codec benchmark.

use vstd::prelude::*;
use crate::text::{is_word, number_i32, number_usize, read_i32, read_usize};

verus! {

/// How results are printed.
#[derive(Clone, Copy, Debug, PartialEq, Eq, Structural)]
pub enum OutputFormat {
    Text,
    Csv,
}

/// How results are printed, and whether column names are.
#[derive(Clone, Copy, Debug, PartialEq, Eq, Structural)]
pub struct OutputOptions {
    pub format: OutputFormat,
    pub header: bool,
}

impl Default for OutputOptions {
    fn default() -> (o: Self)
        ensures
            o == (OutputOptions { format: OutputFormat::Text, header: true }),
    {
        OutputOptions { format: OutputFormat::Text, header: true }
    }
}

/// How the bitrate is kept.
#[derive(Clone, Copy, Debug, PartialEq, Eq, Structural)]
pub enum BitrateMode {
    Vbr,
    Cvbr,
    Cbr,
}

impl BitrateMode {
    /// The mode that a word names.
    pub open spec fn named(word: Seq<char>) -> Option<BitrateMode> {
        if word == "vbr"@ {
            Some(BitrateMode::Vbr)
        } else if word == "cvbr"@ {
            Some(BitrateMode::Cvbr)
        } else if word == "cbr"@ {
            Some(BitrateMode::Cbr)
        } else {
            None
        }
    }

    /// The name of a mode.
    pub open spec fn name(self) -> Seq<char> {
        match self {
            BitrateMode::Vbr => "vbr"@,
            BitrateMode::Cvbr => "cvbr"@,
            BitrateMode::Cbr => "cbr"@,
        }
    }

    /// Computes [`BitrateMode::named`].
    pub fn parse(value: &str) -> (r: Option<Self>)
        ensures
            r == BitrateMode::named(value@),
    {
        if is_word(value, "vbr") {
            Some(BitrateMode::Vbr)
        } else if is_word(value, "cvbr") {
            Some(BitrateMode::Cvbr)
        } else if is_word(value, "cbr") {
            Some(BitrateMode::Cbr)
        } else {
            None
        }
    }

    /// Computes [`BitrateMode::name`].
    pub fn as_str(self) -> (s: &'static str)
        ensures
            s@ == self.name(),
    {
        match self {
            BitrateMode::Vbr => "vbr",
            BitrateMode::Cvbr => "cvbr",
            BitrateMode::Cbr => "cbr",
        }
    }
}

/// The name of a bitrate mode names it.
pub proof fn law_bitrate_modes_are_named(mode: BitrateMode)
    ensures
        BitrateMode::named(mode.name()) == Some(mode),
{
    reveal_strlit("vbr");
    reveal_strlit("cvbr");
    reveal_strlit("cbr");
    assert("vbr"@.len() != "cvbr"@.len());
    assert("vbr"@[0] != "cbr"@[0]);
    assert("cvbr"@.len() != "cbr"@.len());
}

/// What the codec is tuned for.
#[derive(Clone, Copy, Debug, PartialEq, Eq, Structural)]
pub enum ApplicationArg {
    Voip,
    Audio,
    RestrictedLowDelay,
}

impl ApplicationArg {
    /// The application that a word names.
    pub open spec fn named(word: Seq<char>) -> Option<ApplicationArg> {
        if word == "voip"@ {
            Some(ApplicationArg::Voip)
        } else if word == "audio"@ {
            Some(ApplicationArg::Audio)
        } else if word == "restricted-lowdelay"@ || word == "restricted_lowdelay"@ || word
            == "lowdelay"@ {
            Some(ApplicationArg::RestrictedLowDelay)
        } else {
            None
        }
    }

    /// The name of an application.
    pub open spec fn name(self) -> Seq<char> {
        match self {
            ApplicationArg::Voip => "voip"@,
            ApplicationArg::Audio => "audio"@,
            ApplicationArg::RestrictedLowDelay => "restricted-lowdelay"@,
        }
    }

    /// The number of an application.
    pub open spec fn code(self) -> i32 {
        match self {
            ApplicationArg::Voip => 2048,
            ApplicationArg::Audio => 2049,
            ApplicationArg::RestrictedLowDelay => 2051,
        }
    }

    /// Computes [`ApplicationArg::named`].
    pub fn parse(value: &str) -> (r: Option<Self>)
        ensures
            r == ApplicationArg::named(value@),
    {
        if is_word(value, "voip") {
            Some(ApplicationArg::Voip)
        } else if is_word(value, "audio") {
            Some(ApplicationArg::Audio)
        } else if is_word(value, "restricted-lowdelay") || is_word(value, "restricted_lowdelay")
            || is_word(value, "lowdelay") {
            Some(ApplicationArg::RestrictedLowDelay)
        } else {
            None
        }
    }

    /// Computes [`ApplicationArg::name`].
    pub fn as_str(self) -> (s: &'static str)
        ensures
            s@ == self.name(),
    {
        match self {
            ApplicationArg::Voip => "voip",
            ApplicationArg::Audio => "audio",
            ApplicationArg::RestrictedLowDelay => "restricted-lowdelay",
        }
    }

    /// Computes [`ApplicationArg::code`].
    pub fn to_opus_int(self) -> (v: i32)
        ensures
            v == self.code(),
    {
        match self {
            ApplicationArg::Voip => 2048,
            ApplicationArg::Audio => 2049,
            ApplicationArg::RestrictedLowDelay => 2051,
        }
    }
}

/// The name of an application names it.
pub proof fn law_applications_are_named(application: ApplicationArg)
    ensures
        ApplicationArg::named(application.name()) == Some(application),
{
    reveal_strlit("voip");
    reveal_strlit("audio");
    reveal_strlit("restricted-lowdelay");
    assert("voip"@.len() != "audio"@.len());
    assert("voip"@.len() != "restricted-lowdelay"@.len());
    assert("audio"@.len() != "restricted-lowdelay"@.len());
}

/// How frames are encoded.
#[derive(Clone, Copy, Debug, PartialEq, Eq, Structural)]
pub struct EncodeConfig {
    pub sample_rate: i32,
    pub channels: i32,
    pub frame_size: usize,
    pub application: ApplicationArg,
    pub bitrate: i32,
    pub complexity: i32,
    pub bitrate_mode: BitrateMode,
}

impl EncodeConfig {
    /// The settings that arguments leave alone.
    pub open spec fn usual() -> EncodeConfig {
        EncodeConfig {
            sample_rate: 48000,
            channels: 2,
            frame_size: 960,
            application: ApplicationArg::Audio,
            bitrate: 64000,
            complexity: 10,
            bitrate_mode: BitrateMode::Cvbr,
        }
    }

    /// Most samples per channel that a packet can hold.
    pub fn max_frame_size(self) -> (n: usize)
        requires
            self.frame_size * 6 <= usize::MAX,
        ensures
            n == self.frame_size * 6,
    {
        self.frame_size * 6
    }
}

impl Default for EncodeConfig {
    fn default() -> (c: Self)
        ensures
            c == EncodeConfig::usual(),
    {
        EncodeConfig {
            sample_rate: 48000,
            channels: 2,
            frame_size: 960,
            application: ApplicationArg::Audio,
            bitrate: 64000,
            complexity: 10,
            bitrate_mode: BitrateMode::Cvbr,
        }
    }
}

/// What the benchmark is asked to do.
#[derive(Clone, Copy, Debug, PartialEq, Eq, Structural)]
pub enum Command {
    Packets,
    Encode,
    Decode,
}

impl Command {
    /// The command that a word names.
    pub open spec fn named(word: Seq<char>) -> Option<Command> {
        if word == "packets"@ {
            Some(Command::Packets)
        } else if word == "encode"@ {
            Some(Command::Encode)
        } else if word == "decode"@ {
            Some(Command::Decode)
        } else {
            None
        }
    }

    /// Computes [`Command::named`].
    pub fn parse(value: &str) -> (r: Option<Self>)
        ensures
            r == Command::named(value@),
    {
        if is_word(value, "packets") {
            Some(Command::Packets)
        } else if is_word(value, "encode") {
            Some(Command::Encode)
        } else if is_word(value, "decode") {
            Some(Command::Decode)
        } else {
            None
        }
    }
}

/// An argument that sets something.
#[derive(Clone, Copy, Debug, PartialEq, Eq, Structural)]
pub enum Flag {
    Input,
    Output,
    Packets,
    SampleRate,
    Channels,
    FrameSize,
    Application,
    Bitrate,
    Complexity,
    BitrateMode,
    Warmup,
    Measure,
    MaxFrames,
    Format,
    NoHeader,
}

impl Flag {
    /// The text of a flag.
    pub open spec fn text(self) -> Seq<char> {
        match self {
            Flag::Input => "--input"@,
            Flag::Output => "--output"@,
            Flag::Packets => "--packets"@,
            Flag::SampleRate => "--sample-rate"@,
            Flag::Channels => "--channels"@,
            Flag::FrameSize => "--frame-size"@,
            Flag::Application => "--application"@,
            Flag::Bitrate => "--bitrate"@,
            Flag::Complexity => "--complexity"@,
            Flag::BitrateMode => "--bitrate-mode"@,
            Flag::Warmup => "--warmup"@,
            Flag::Measure => "--measure"@,
            Flag::MaxFrames => "--max-frames"@,
            Flag::Format => "--format"@,
            Flag::NoHeader => "--no-header"@,
        }
    }

    /// Computes [`Flag::text`].
    pub fn as_str(self) -> (s: &'static str)
        ensures
            s@ == self.text(),
    {
        match self {
            Flag::Input => "--input",
            Flag::Output => "--output",
            Flag::Packets => "--packets",
            Flag::SampleRate => "--sample-rate",
            Flag::Channels => "--channels",
            Flag::FrameSize => "--frame-size",
            Flag::Application => "--application",
            Flag::Bitrate => "--bitrate",
            Flag::Complexity => "--complexity",
            Flag::BitrateMode => "--bitrate-mode",
            Flag::Warmup => "--warmup",
            Flag::Measure => "--measure",
            Flag::MaxFrames => "--max-frames",
            Flag::Format => "--format",
            Flag::NoHeader => "--no-header",
        }
    }

    /// Whether a command knows a flag.
    pub open spec fn known(self, command: Command) -> bool {
        match self {
            Flag::Input => command != Command::Decode,
            Flag::Output => command == Command::Packets,
            Flag::Packets => command == Command::Decode,
            Flag::SampleRate | Flag::Channels | Flag::FrameSize | Flag::Application | Flag::Bitrate
            | Flag::Complexity | Flag::BitrateMode => command != Command::Decode,
            Flag::MaxFrames => true,
            Flag::Warmup | Flag::Measure | Flag::Format | Flag::NoHeader => command
                != Command::Packets,
        }
    }

    /// Computes [`Flag::known`].
    fn is_known(self, command: Command) -> (b: bool)
        ensures
            b == self.known(command),
    {
        match self {
            Flag::Input => command != Command::Decode,
            Flag::Output => command == Command::Packets,
            Flag::Packets => command == Command::Decode,
            Flag::SampleRate | Flag::Channels | Flag::FrameSize | Flag::Application | Flag::Bitrate
            | Flag::Complexity | Flag::BitrateMode => command != Command::Decode,
            Flag::MaxFrames => true,
            Flag::Warmup | Flag::Measure | Flag::Format | Flag::NoHeader => command
                != Command::Packets,
        }
    }

    /// The flag number `i`, and none behind the last one.
    pub open spec fn numbered(i: int) -> Option<Flag> {
        if i == 0 {
            Some(Flag::Input)
        } else if i == 1 {
            Some(Flag::Output)
        } else if i == 2 {
            Some(Flag::Packets)
        } else if i == 3 {
            Some(Flag::SampleRate)
        } else if i == 4 {
            Some(Flag::Channels)
        } else if i == 5 {
            Some(Flag::FrameSize)
        } else if i == 6 {
            Some(Flag::Application)
        } else if i == 7 {
            Some(Flag::Bitrate)
        } else if i == 8 {
            Some(Flag::Complexity)
        } else if i == 9 {
            Some(Flag::BitrateMode)
        } else if i == 10 {
            Some(Flag::Warmup)
        } else if i == 11 {
            Some(Flag::Measure)
        } else if i == 12 {
            Some(Flag::MaxFrames)
        } else if i == 13 {
            Some(Flag::Format)
        } else if i == 14 {
            Some(Flag::NoHeader)
        } else {
            None
        }
    }

    /// The first flag from number `i` on that has a text.
    pub open spec fn found(text: Seq<char>, i: int) -> Option<Flag>
        decreases 15 - i,
    {
        if i < 0 || i >= 15 {
            None
        } else if Flag::numbered(i)->Some_0.text() == text {
            Flag::numbered(i)
        } else {
            Flag::found(text, i + 1)
        }
    }

    /// Looks for the flag with a text.
    fn find(text: &str) -> (r: Option<Flag>)
        ensures
            r == Flag::found(text@, 0),
    {
        let all: [Flag; 15] = [
            Flag::Input,
            Flag::Output,
            Flag::Packets,
            Flag::SampleRate,
            Flag::Channels,
            Flag::FrameSize,
            Flag::Application,
            Flag::Bitrate,
            Flag::Complexity,
            Flag::BitrateMode,
            Flag::Warmup,
            Flag::Measure,
            Flag::MaxFrames,
            Flag::Format,
            Flag::NoHeader,
        ];
        let mut i: usize = 0;
        while i < 15
            invariant
                i <= 15,
                forall|k: int| 0 <= k < 15 ==> Some(#[trigger] all@[k]) == Flag::numbered(k),
                Flag::found(text@, i as int) == Flag::found(text@, 0),
            decreases 15 - i,
        {
            if is_word(text, all[i].as_str()) {
                return Some(all[i]);
            }
            i = i + 1;
        }
        None
    }
}

/// Why arguments are refused.
#[derive(Clone, Copy, Debug, PartialEq, Eq, Structural)]
pub enum ArgumentError {
    /// The argument at this place is not known.
    Unknown(usize),
    /// A flag at the end has no value.
    MissingValue(Flag),
    /// The value of a flag is no integer.
    InvalidInteger(Flag),
    /// The value at this place is no application.
    InvalidApplication(usize),
    /// The value at this place is no bitrate mode.
    InvalidBitrateMode(usize),
    /// The value at this place is no output format.
    InvalidFormat(usize),
    /// A flag that has to be there is not.
    MissingFlag(Flag),
    /// A command would have nothing to do.
    ZeroFrames(Command),
    /// A setting is out of range.
    ChannelsOutOfRange,
    SampleRateOutOfRange,
    FrameSizeOutOfRange,
    ComplexityOutOfRange,
    /// Frames have no samples.
    ZeroFrameSize,
}

/// What the arguments say; texts are given by their places.
#[derive(Clone, Copy, Debug, PartialEq, Eq, Structural)]
pub struct Options {
    pub input: Option<usize>,
    pub output: Option<usize>,
    pub packets: Option<usize>,
    pub encode: EncodeConfig,
    pub warmup: usize,
    pub measure: usize,
    pub max_frames: Option<usize>,
    pub printed: OutputOptions,
}

impl Options {
    /// What holds without arguments.
    pub open spec fn none() -> Options {
        Options {
            input: None,
            output: None,
            packets: None,
            encode: EncodeConfig::usual(),
            warmup: 3,
            measure: 10,
            max_frames: None,
            printed: OutputOptions { format: OutputFormat::Text, header: true },
        }
    }
}

/// The output format that a word names.
pub open spec fn format_named(word: Seq<char>) -> Option<OutputFormat> {
    if word == "text"@ {
        Some(OutputFormat::Text)
    } else if word == "csv"@ {
        Some(OutputFormat::Csv)
    } else {
        None
    }
}

/// Computes [`format_named`].
pub fn parse_output_format(value: &str) -> (r: Option<OutputFormat>)
    ensures
        r == format_named(value@),
{
    if is_word(value, "text") {
        Some(OutputFormat::Text)
    } else if is_word(value, "csv") {
        Some(OutputFormat::Csv)
    } else {
        None
    }
}

/// A number behind a flag.
pub open spec fn integer_of<T>(v: Option<T>, flag: Flag) -> Result<T, ArgumentError> {
    match v {
        Some(v) => Ok(v),
        None => Err(ArgumentError::InvalidInteger(flag)),
    }
}

/// Options after a flag with the value at the place `at`.
pub open spec fn with_value(o: Options, flag: Flag, value: Seq<char>, at: int) -> Result<
    Options,
    ArgumentError,
> {
    let integer = integer_of(number_i32(value), flag);
    let size = integer_of(number_usize(value), flag);
    match flag {
        Flag::Input => Ok(Options { input: Some(at as usize), ..o }),
        Flag::Output => Ok(Options { output: Some(at as usize), ..o }),
        Flag::Packets => Ok(Options { packets: Some(at as usize), ..o }),
        Flag::SampleRate => match integer {
            Ok(v) => Ok(Options { encode: EncodeConfig { sample_rate: v, ..o.encode }, ..o }),
            Err(e) => Err(e),
        },
        Flag::Channels => match integer {
            Ok(v) => Ok(Options { encode: EncodeConfig { channels: v, ..o.encode }, ..o }),
            Err(e) => Err(e),
        },
        Flag::Bitrate => match integer {
            Ok(v) => Ok(Options { encode: EncodeConfig { bitrate: v, ..o.encode }, ..o }),
            Err(e) => Err(e),
        },
        Flag::Complexity => match integer {
            Ok(v) => Ok(Options { encode: EncodeConfig { complexity: v, ..o.encode }, ..o }),
            Err(e) => Err(e),
        },
        Flag::FrameSize => match size {
            Ok(v) => Ok(Options { encode: EncodeConfig { frame_size: v, ..o.encode }, ..o }),
            Err(e) => Err(e),
        },
        Flag::Warmup => match size {
            Ok(v) => Ok(Options { warmup: v, ..o }),
            Err(e) => Err(e),
        },
        Flag::Measure => match size {
            Ok(v) => Ok(Options { measure: v, ..o }),
            Err(e) => Err(e),
        },
        Flag::MaxFrames => match size {
            Ok(v) => Ok(Options { max_frames: Some(v), ..o }),
            Err(e) => Err(e),
        },
        Flag::Application => match ApplicationArg::named(value) {
            Some(v) => Ok(Options { encode: EncodeConfig { application: v, ..o.encode }, ..o }),
            None => Err(ArgumentError::InvalidApplication(at as usize)),
        },
        Flag::BitrateMode => match BitrateMode::named(value) {
            Some(v) => Ok(Options { encode: EncodeConfig { bitrate_mode: v, ..o.encode }, ..o }),
            None => Err(ArgumentError::InvalidBitrateMode(at as usize)),
        },
        Flag::Format => match format_named(value) {
            Some(v) => Ok(Options { printed: OutputOptions { format: v, ..o.printed }, ..o }),
            None => Err(ArgumentError::InvalidFormat(at as usize)),
        },
        Flag::NoHeader => Ok(o),
    }
}

/// Options after the arguments from `at` on.
pub open spec fn options_read(command: Command, args: Seq<String>, at: int, o: Options) -> Result<
    Options,
    ArgumentError,
>
    decreases args.len() - at,
{
    if at < 0 || at >= args.len() {
        Ok(o)
    } else {
        match Flag::found(args[at]@, 0) {
            None => Err(ArgumentError::Unknown(at as usize)),
            Some(flag) => if !flag.known(command) {
                Err(ArgumentError::Unknown(at as usize))
            } else if flag == Flag::NoHeader {
                options_read(
                    command,
                    args,
                    at + 1,
                    Options { printed: OutputOptions { header: false, ..o.printed }, ..o },
                )
            } else if at + 1 >= args.len() {
                Err(ArgumentError::MissingValue(flag))
            } else {
                match with_value(o, flag, args[at + 1]@, at + 1) {
                    Ok(next) => options_read(command, args, at + 2, next),
                    Err(e) => Err(e),
                }
            },
        }
    }
}

/// Reads the integer behind a flag.
pub fn parse_i32(value: &str, flag: Flag) -> (r: Result<i32, ArgumentError>)
    ensures
        r == integer_of(number_i32(value@), flag),
{
    match read_i32(value) {
        Some(v) => Ok(v),
        None => Err(ArgumentError::InvalidInteger(flag)),
    }
}

/// Reads the natural number behind a flag.
pub fn parse_usize(value: &str, flag: Flag) -> (r: Result<usize, ArgumentError>)
    ensures
        r == integer_of(number_usize(value@), flag),
{
    match read_usize(value) {
        Some(v) => Ok(v),
        None => Err(ArgumentError::InvalidInteger(flag)),
    }
}

/// Computes [`with_value`].
fn set_value(o: Options, flag: Flag, value: &str, at: usize) -> (r: Result<Options, ArgumentError>)
    ensures
        r == with_value(o, flag, value@, at as int),
{
    let mut next: Options = o;
    match flag {
        Flag::Input => {
            next.input = Some(at);
        },
        Flag::Output => {
            next.output = Some(at);
        },
        Flag::Packets => {
            next.packets = Some(at);
        },
        Flag::SampleRate | Flag::Channels | Flag::Bitrate | Flag::Complexity => {
            let v: i32 = match parse_i32(value, flag) {
                Ok(v) => v,
                Err(e) => {
                    return Err(e);
                },
            };
            match flag {
                Flag::SampleRate => {
                    next.encode.sample_rate = v;
                },
                Flag::Channels => {
                    next.encode.channels = v;
                },
                Flag::Bitrate => {
                    next.encode.bitrate = v;
                },
                _ => {
                    next.encode.complexity = v;
                },
            }
        },
        Flag::FrameSize | Flag::Warmup | Flag::Measure | Flag::MaxFrames => {
            let v: usize = match parse_usize(value, flag) {
                Ok(v) => v,
                Err(e) => {
                    return Err(e);
                },
            };
            match flag {
                Flag::FrameSize => {
                    next.encode.frame_size = v;
                },
                Flag::Warmup => {
                    next.warmup = v;
                },
                Flag::Measure => {
                    next.measure = v;
                },
                _ => {
                    next.max_frames = Some(v);
                },
            }
        },
        Flag::Application => {
            match ApplicationArg::parse(value) {
                Some(v) => {
                    next.encode.application = v;
                },
                None => {
                    return Err(ArgumentError::InvalidApplication(at));
                },
            }
        },
        Flag::BitrateMode => {
            match BitrateMode::parse(value) {
                Some(v) => {
                    next.encode.bitrate_mode = v;
                },
                None => {
                    return Err(ArgumentError::InvalidBitrateMode(at));
                },
            }
        },
        Flag::Format => {
            match parse_output_format(value) {
                Some(v) => {
                    next.printed.format = v;
                },
                None => {
                    return Err(ArgumentError::InvalidFormat(at));
                },
            }
        },
        Flag::NoHeader => {},
    }
    Ok(next)
}

/// Computes [`options_read`] from the first argument on.
pub fn read_options(command: Command, args: &Vec<String>) -> (r: Result<Options, ArgumentError>)
    ensures
        r == options_read(command, args@, 0, Options::none()),
{
    let mut o: Options = Options {
        input: None,
        output: None,
        packets: None,
        encode: EncodeConfig::default(),
        warmup: 3,
        measure: 10,
        max_frames: None,
        printed: OutputOptions::default(),
    };
    assert(args@.len() == args.len());
    let len: usize = args.len();
    let mut at: usize = 0;
    while at < len
        invariant
            at <= len,
            len == args@.len(),
            options_read(command, args@, at as int, o) == options_read(
                command,
                args@,
                0,
                Options::none(),
            ),
        decreases len - at,
    {
        let flag: Flag = match Flag::find(args[at].as_str()) {
            Some(flag) => flag,
            None => {
                return Err(ArgumentError::Unknown(at));
            },
        };
        if !flag.is_known(command) {
            return Err(ArgumentError::Unknown(at));
        }
        if flag == Flag::NoHeader {
            o.printed.header = false;
            at = at + 1;
        } else {
            if at == len - 1 {
                return Err(ArgumentError::MissingValue(flag));
            }
            o = match set_value(o, flag, args[at + 1].as_str(), at + 1) {
                Ok(next) => next,
                Err(e) => {
                    return Err(e);
                },
            };
            at = at + 2;
        }
    }
    Ok(o)
}

/// Arguments of the command that writes packets.
pub struct PacketCorpusArgs {
    pub input: String,
    pub output: String,
    pub encode: EncodeConfig,
    pub max_frames: Option<usize>,
}

/// Arguments of the command that encodes.
pub struct EncodeBenchArgs {
    pub input: String,
    pub encode: EncodeConfig,
    pub warmup: usize,
    pub measure: usize,
    pub max_frames: Option<usize>,
    pub output: OutputOptions,
}

/// Arguments of the command that decodes.
pub struct DecodeBenchArgs {
    pub packets: String,
    pub warmup: usize,
    pub measure: usize,
    pub max_frames: Option<usize>,
    pub output: OutputOptions,
}

/// The text at a place that a flag has to give.
pub open spec fn text_at(args: Seq<String>, place: Option<usize>, flag: Flag) -> Result<
    Seq<char>,
    ArgumentError,
> {
    match place {
        Some(at) => Ok(args[at as int]@),
        None => Err(ArgumentError::MissingFlag(flag)),
    }
}

/// Places that options give lie in the arguments.
pub open spec fn placed(o: Options, n: int) -> bool {
    &&& o.input matches Some(at) ==> at < n
    &&& o.output matches Some(at) ==> at < n
    &&& o.packets matches Some(at) ==> at < n
}

/// Reading arguments gives places that lie in them.
proof fn lemma_placed(command: Command, args: Seq<String>, at: int, o: Options)
    requires
        placed(o, args.len() as int),
        args.len() <= usize::MAX,
    ensures
        options_read(command, args, at, o) matches Ok(r) ==> placed(r, args.len() as int),
    decreases args.len() - at,
{
    if 0 <= at < args.len() {
        if let Some(flag) = Flag::found(args[at]@, 0) {
            if flag == Flag::NoHeader {
                lemma_placed(
                    command,
                    args,
                    at + 1,
                    Options { printed: OutputOptions { header: false, ..o.printed }, ..o },
                );
            } else if at + 1 < args.len() {
                if let Ok(next) = with_value(o, flag, args[at + 1]@, at + 1) {
                    lemma_placed(command, args, at + 2, next);
                }
            }
        }
    }
}

/// Copies the text at a place.
fn take_text(args: &Vec<String>, place: Option<usize>, flag: Flag) -> (r: Result<
    String,
    ArgumentError,
>)
    requires
        place matches Some(at) ==> at < args@.len(),
    ensures
        match text_at(args@, place, flag) {
            Ok(text) => r matches Ok(s) && s@ == text,
            Err(e) => r == Err::<String, ArgumentError>(e),
        },
{
    match place {
        Some(at) => Ok(args[at].clone()),
        None => Err(ArgumentError::MissingFlag(flag)),
    }
}

impl PacketCorpusArgs {
    /// Reads the arguments behind the command.
    pub fn parse(args: &Vec<String>) -> (r: Result<Self, ArgumentError>)
        ensures
            match options_read(Command::Packets, args@, 0, Options::none()) {
                Err(e) => r == Err::<Self, ArgumentError>(e),
                Ok(o) => match text_at(args@, o.input, Flag::Input) {
                    Err(e) => r == Err::<Self, ArgumentError>(e),
                    Ok(input) => match text_at(args@, o.output, Flag::Output) {
                        Err(e) => r == Err::<Self, ArgumentError>(e),
                        Ok(output) => r matches Ok(a) && a.input@ == input && a.output@ == output
                            && a.encode == o.encode && a.max_frames == o.max_frames,
                    },
                },
            },
    {
        assert(args@.len() == args.len());
        proof {
            lemma_placed(Command::Packets, args@, 0, Options::none());
        }
        let o: Options = match read_options(Command::Packets, args) {
            Ok(o) => o,
            Err(e) => {
                return Err(e);
            },
        };
        let input: String = match take_text(args, o.input, Flag::Input) {
            Ok(s) => s,
            Err(e) => {
                return Err(e);
            },
        };
        let output: String = match take_text(args, o.output, Flag::Output) {
            Ok(s) => s,
            Err(e) => {
                return Err(e);
            },
        };
        Ok(PacketCorpusArgs { input, output, encode: o.encode, max_frames: o.max_frames })
    }
}

impl EncodeBenchArgs {
    /// Reads the arguments behind the command.
    pub fn parse(args: &Vec<String>) -> (r: Result<Self, ArgumentError>)
        ensures
            match options_read(Command::Encode, args@, 0, Options::none()) {
                Err(e) => r == Err::<Self, ArgumentError>(e),
                Ok(o) => match text_at(args@, o.input, Flag::Input) {
                    Err(e) => r == Err::<Self, ArgumentError>(e),
                    Ok(input) => r matches Ok(a) && a.input@ == input && a.encode == o.encode
                        && a.warmup == o.warmup && a.measure == o.measure && a.max_frames
                        == o.max_frames && a.output == o.printed,
                },
            },
    {
        assert(args@.len() == args.len());
        proof {
            lemma_placed(Command::Encode, args@, 0, Options::none());
        }
        let o: Options = match read_options(Command::Encode, args) {
            Ok(o) => o,
            Err(e) => {
                return Err(e);
            },
        };
        let input: String = match take_text(args, o.input, Flag::Input) {
            Ok(s) => s,
            Err(e) => {
                return Err(e);
            },
        };
        Ok(
            EncodeBenchArgs {
                input,
                encode: o.encode,
                warmup: o.warmup,
                measure: o.measure,
                max_frames: o.max_frames,
                output: o.printed,
            },
        )
    }
}

impl DecodeBenchArgs {
    /// Reads the arguments behind the command.
    pub fn parse(args: &Vec<String>) -> (r: Result<Self, ArgumentError>)
        ensures
            match options_read(Command::Decode, args@, 0, Options::none()) {
                Err(e) => r == Err::<Self, ArgumentError>(e),
                Ok(o) => match text_at(args@, o.packets, Flag::Packets) {
                    Err(e) => r == Err::<Self, ArgumentError>(e),
                    Ok(packets) => r matches Ok(a) && a.packets@ == packets && a.warmup == o.warmup
                        && a.measure == o.measure && a.max_frames == o.max_frames && a.output
                        == o.printed,
                },
            },
    {
        assert(args@.len() == args.len());
        proof {
            lemma_placed(Command::Decode, args@, 0, Options::none());
        }
        let o: Options = match read_options(Command::Decode, args) {
            Ok(o) => o,
            Err(e) => {
                return Err(e);
            },
        };
        let packets: String = match take_text(args, o.packets, Flag::Packets) {
            Ok(s) => s,
            Err(e) => {
                return Err(e);
            },
        };
        Ok(
            DecodeBenchArgs {
                packets,
                warmup: o.warmup,
                measure: o.measure,
                max_frames: o.max_frames,
                output: o.printed,
            },
        )
    }
}

/// Samples of all channels in a frame, where the settings give a frame.
pub open spec fn frame_samples(config: EncodeConfig) -> Result<int, ArgumentError> {
    if config.channels < 0 {
        Err(ArgumentError::ChannelsOutOfRange)
    } else if config.frame_size * config.channels == 0 {
        Err(ArgumentError::ZeroFrameSize)
    } else {
        Ok(config.frame_size * config.channels)
    }
}

/// Whole frames in a recording.
pub fn frame_count(sample_count: usize, config: EncodeConfig) -> (r: Result<usize, ArgumentError>)
    requires
        config.channels >= 0 ==> config.frame_size * config.channels <= usize::MAX,
    ensures
        match frame_samples(config) {
            Err(e) => r == Err::<usize, ArgumentError>(e),
            Ok(n) => r == Ok::<usize, ArgumentError>((sample_count as int / n) as usize) && (
            sample_count as int / n) <= sample_count,
        },
{
    if config.channels < 0 {
        return Err(ArgumentError::ChannelsOutOfRange);
    }
    let n: usize = config.frame_size * (config.channels as usize);
    if n == 0 {
        return Err(ArgumentError::ZeroFrameSize);
    }
    proof {
        vstd::arithmetic::div_mod::lemma_div_nonincreasing(sample_count as int, n as int);
    }
    Ok(sample_count / n)
}

/// Frames that are processed: all, or fewer where a limit is given; there has to
/// be one.
pub fn frame_limit(max_frames: Option<usize>, frames: usize, command: Command) -> (r: Result<
    usize,
    ArgumentError,
>)
    ensures
        ({
            let limit = match max_frames {
                Some(most) => if most < frames {
                    most
                } else {
                    frames
                },
                None => frames,
            };
            r == (if limit == 0 {
                Err::<usize, ArgumentError>(ArgumentError::ZeroFrames(command))
            } else {
                Ok::<usize, ArgumentError>(limit)
            })
        }),
{
    let limit: usize = match max_frames {
        Some(most) => if most < frames {
            most
        } else {
            frames
        },
        None => frames,
    };
    if limit == 0 {
        Err(ArgumentError::ZeroFrames(command))
    } else {
        Ok(limit)
    }
}

/// The message of an error, `at` being the text at the place that it names.
pub open spec fn message_of(e: ArgumentError, at: Seq<char>) -> Seq<char> {
    match e {
        ArgumentError::Unknown(_) => "unknown argument '"@ + at + "'"@,
        ArgumentError::MissingValue(flag) => "missing value for "@ + flag.text(),
        ArgumentError::InvalidInteger(flag) => "invalid integer for "@ + flag.text(),
        ArgumentError::InvalidApplication(_) => "invalid --application '"@ + at
            + "', expected voip|audio|restricted-lowdelay"@,
        ArgumentError::InvalidBitrateMode(_) => "invalid --bitrate-mode '"@ + at
            + "', expected vbr|cvbr|cbr"@,
        ArgumentError::InvalidFormat(_) => "invalid --format '"@ + at + "', expected text|csv"@,
        ArgumentError::MissingFlag(flag) => "missing "@ + flag.text(),
        ArgumentError::ZeroFrames(Command::Packets) => "packet corpus would contain zero frames"@,
        ArgumentError::ZeroFrames(Command::Encode) => "encode benchmark would process zero frames"@,
        ArgumentError::ZeroFrames(Command::Decode) => "decode benchmark would process zero frames"@,
        ArgumentError::ChannelsOutOfRange => "channels out of range"@,
        ArgumentError::SampleRateOutOfRange => "sample rate out of range"@,
        ArgumentError::FrameSizeOutOfRange => "frame size out of range"@,
        ArgumentError::ComplexityOutOfRange => "complexity out of range"@,
        ArgumentError::ZeroFrameSize => "frame size must be non-zero"@,
    }
}

/// The text at the place that an error names, or none.
pub open spec fn named_by(e: ArgumentError, args: Seq<String>) -> Seq<char> {
    match e {
        ArgumentError::Unknown(at) | ArgumentError::InvalidApplication(at)
        | ArgumentError::InvalidBitrateMode(at) | ArgumentError::InvalidFormat(at) => if at
            < args.len() {
            args[at as int]@
        } else {
            Seq::empty()
        },
        _ => Seq::empty(),
    }
}

/// A text between two others.
fn quoted(front: &str, text: &str, back: &str) -> (s: String)
    ensures
        s@ == front@ + text@ + back@,
{
    let mut s: String = front.to_owned();
    s.append(text);
    s.append(back);
    s
}

/// A text behind another.
fn joined(front: &str, text: &str) -> (s: String)
    ensures
        s@ == front@ + text@,
{
    let mut s: String = front.to_owned();
    s.append(text);
    s
}

impl ArgumentError {
    /// The message for the arguments that were refused.
    pub fn message(&self, args: &Vec<String>) -> (s: String)
        ensures
            s@ == message_of(*self, named_by(*self, args@)),
    {
        let place: Option<usize> = match self {
            ArgumentError::Unknown(at) | ArgumentError::InvalidApplication(at)
            | ArgumentError::InvalidBitrateMode(at) | ArgumentError::InvalidFormat(at) => Some(*at),
            _ => None,
        };
        let none: String = String::new();
        let at: &str = match place {
            Some(i) => if i < args.len() {
                args[i].as_str()
            } else {
                none.as_str()
            },
            None => none.as_str(),
        };
        match self {
            ArgumentError::Unknown(_) => quoted("unknown argument '", at, "'"),
            ArgumentError::MissingValue(flag) => joined("missing value for ", flag.as_str()),
            ArgumentError::InvalidInteger(flag) => joined("invalid integer for ", flag.as_str()),
            ArgumentError::InvalidApplication(_) => quoted(
                "invalid --application '",
                at,
                "', expected voip|audio|restricted-lowdelay",
            ),
            ArgumentError::InvalidBitrateMode(_) => quoted(
                "invalid --bitrate-mode '",
                at,
                "', expected vbr|cvbr|cbr",
            ),
            ArgumentError::InvalidFormat(_) => quoted(
                "invalid --format '",
                at,
                "', expected text|csv",
            ),
            ArgumentError::MissingFlag(flag) => joined("missing ", flag.as_str()),
            ArgumentError::ZeroFrames(Command::Packets) => "packet corpus would contain zero frames".to_owned(),
            ArgumentError::ZeroFrames(Command::Encode) => "encode benchmark would process zero frames".to_owned(),
            ArgumentError::ZeroFrames(Command::Decode) => "decode benchmark would process zero frames".to_owned(),
            ArgumentError::ChannelsOutOfRange => "channels out of range".to_owned(),
            ArgumentError::SampleRateOutOfRange => "sample rate out of range".to_owned(),
            ArgumentError::FrameSizeOutOfRange => "frame size out of range".to_owned(),
            ArgumentError::ComplexityOutOfRange => "complexity out of range".to_owned(),
            ArgumentError::ZeroFrameSize => "frame size must be non-zero".to_owned(),
        }
    }
}

} // verus!
