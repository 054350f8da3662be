//! Decisions of the test vector runner: its arguments, the records of its files
//! and the shapes of what it compares.

use vstd::prelude::*;
use crate::text::is_word;

verus! {

/// Where a path comes from.
#[derive(Clone, Copy, Debug, PartialEq, Eq, Structural)]
pub enum PathSource {
    /// The argument at this place.
    Argument(usize),
    /// A variable of the environment.
    Environment,
}

/// What the arguments ask for.
#[derive(Clone, Copy, Debug, PartialEq, Eq, Structural)]
pub struct VectorArgs {
    pub vector_path: PathSource,
    pub dnn_blob: Option<PathSource>,
}

/// Why arguments are refused.
#[derive(Clone, Copy, Debug, PartialEq, Eq, Structural)]
pub enum VectorArgsError {
    Usage,
    MissingBlob,
}

/// Places of the arguments so far.
#[derive(Clone, Copy, Debug, PartialEq, Eq, Structural)]
pub struct Places {
    /// Arguments that are no option.
    pub count: usize,
    pub first: usize,
    pub second: usize,
    pub blob: Option<usize>,
}

/// Places of the arguments from `at` on, after those of `p`; none where they
/// are refused.
pub open spec fn places_found(args: Seq<String>, at: int, p: Places) -> Option<Places>
    decreases args.len() - at,
{
    if at < 0 || at >= args.len() {
        Some(p)
    } else if args[at]@ == "--dnn-blob"@ {
        if at + 1 >= args.len() {
            None
        } else {
            places_found(args, at + 2, Places { blob: Some((at + 1) as usize), ..p })
        }
    } else if args[at]@ == "--help"@ || args[at]@ == "-h"@ {
        None
    } else {
        places_found(
            args,
            at + 1,
            Places {
                count: if p.count < 3 { (p.count + 1) as usize } else { 3 },
                first: if p.count == 0 { at as usize } else { p.first },
                second: if p.count == 1 { at as usize } else { p.second },
                ..p
            },
        )
    }
}

/// What the arguments ask for, given which variables of the environment are set
/// and whether the weights are built in.
pub open spec fn args_understood(
    args: Seq<String>,
    path_set: bool,
    blob_set: bool,
    built_in: bool,
) -> Result<VectorArgs, VectorArgsError> {
    match places_found(args, 0, Places { count: 0, first: 0, second: 0, blob: None }) {
        None => Err(VectorArgsError::Usage),
        Some(p) => {
            let dnn_blob = match p.blob {
                Some(at) => Some(PathSource::Argument(at)),
                None => if blob_set {
                    Some(PathSource::Environment)
                } else {
                    None
                },
            };
            if p.count > 2 || (p.count == 0 && !path_set) {
                Err(VectorArgsError::Usage)
            } else if !built_in && dnn_blob is None {
                Err(VectorArgsError::MissingBlob)
            } else {
                Ok(
                    VectorArgs {
                        vector_path: if p.count == 0 {
                            PathSource::Environment
                        } else if p.count == 1 {
                            PathSource::Argument(p.first)
                        } else {
                            PathSource::Argument(p.second)
                        },
                        dnn_blob,
                    },
                )
            }
        },
    }
}

/// Computes [`places_found`] from the first argument on.
fn find_places(args: &Vec<String>) -> (r: Option<Places>)
    ensures
        r == places_found(args@, 0, Places { count: 0, first: 0, second: 0, blob: None }),
{
    let ghost none = Places { count: 0, first: 0, second: 0, blob: None };
    let mut p: Places = Places { count: 0, first: 0, second: 0, blob: None };
    assert(args@.len() == args.len());
    let len: usize = args.len();
    let mut at: usize = 0;
    while at < len
        invariant
            at <= len,
            len == args@.len(),
            none == (Places { count: 0, first: 0, second: 0, blob: None }),
            places_found(args@, at as int, p) == places_found(args@, 0, none),
        decreases len - at,
    {
        let arg: &str = args[at].as_str();
        if is_word(arg, "--dnn-blob") {
            if at == len - 1 {
                return None;
            }
            p.blob = Some(at + 1);
            at = at + 2;
        } else if is_word(arg, "--help") || is_word(arg, "-h") {
            return None;
        } else {
            if p.count == 0 {
                p.first = at;
            } else if p.count == 1 {
                p.second = at;
            }
            p.count = if p.count < 3 { p.count + 1 } else { 3 };
            at = at + 1;
        }
    }
    Some(p)
}

/// Computes [`args_understood`].
pub fn parse_args(args: &Vec<String>, path_set: bool, blob_set: bool, built_in: bool) -> (r: Result<
    VectorArgs,
    VectorArgsError,
>)
    ensures
        r == args_understood(args@, path_set, blob_set, built_in),
{
    let p: Places = match find_places(args) {
        Some(p) => p,
        None => {
            return Err(VectorArgsError::Usage);
        },
    };
    let dnn_blob: Option<PathSource> = match p.blob {
        Some(at) => Some(PathSource::Argument(at)),
        None => if blob_set {
            Some(PathSource::Environment)
        } else {
            None
        },
    };
    if p.count > 2 || (p.count == 0 && !path_set) {
        return Err(VectorArgsError::Usage);
    }
    if !built_in && dnn_blob.is_none() {
        return Err(VectorArgsError::MissingBlob);
    }
    let vector_path: PathSource = if p.count == 0 {
        PathSource::Environment
    } else if p.count == 1 {
        PathSource::Argument(p.first)
    } else {
        PathSource::Argument(p.second)
    };
    Ok(VectorArgs { vector_path, dnn_blob })
}

/// The four bytes behind `at` as a big endian number.
pub open spec fn be32(s: Seq<u8>, at: int) -> u32 {
    (16777216 * s[at] + 65536 * s[at + 1] + 256 * s[at + 2] + s[at + 3]) as u32
}

/// The number behind `at`, where there are four bytes.
pub fn read_u32_be(s: &[u8], at: usize) -> (r: Option<u32>)
    requires
        at <= s@.len(),
    ensures
        r == (if at + 4 <= s@.len() {
            Some(be32(s@, at as int))
        } else {
            None
        }),
{
    let len: usize = s.len();
    if len - at < 4 {
        return None;
    }
    Some(
        16777216 * (s[at] as u32) + 65536 * (s[at + 1] as u32) + 256 * (s[at + 2] as u32) + (s[at
            + 3] as u32),
    )
}

/// A record of a file: two numbers of its head, and where its bytes are.
#[derive(Clone, Copy, Debug, PartialEq, Eq, Structural)]
pub struct Record {
    pub first: u32,
    pub second: u32,
    pub from: usize,
    pub len: usize,
}

/// The records of a file, and whether it ends inside the head of a record.
pub struct Records {
    pub records: Vec<Record>,
    pub truncated: bool,
}

/// Kinds of files, by the head of their records.
#[derive(Clone, Copy, Debug, PartialEq, Eq, Structural)]
pub enum RecordKind {
    /// Quantiser, number of chunks, number of bytes.
    Dred,
    /// Number of bytes, range.
    Opus,
}

impl RecordKind {
    /// Numbers in the head of a record.
    pub open spec fn numbers(self) -> int {
        match self {
            RecordKind::Dred => 3,
            RecordKind::Opus => 2,
        }
    }

    /// The record behind `at`.
    pub open spec fn record(self, s: Seq<u8>, at: int) -> Record {
        Record {
            first: be32(s, at),
            second: be32(s, at + 4),
            from: (at + 4 * self.numbers()) as usize,
            len: (match self {
                RecordKind::Dred => be32(s, at + 8),
                RecordKind::Opus => be32(s, at),
            }) as usize,
        }
    }
}

/// The records behind `at`. A file may end in front of a record or inside its
/// bytes; it is truncated where it ends behind the first number of a head.
pub open spec fn records_found(kind: RecordKind, s: Seq<u8>, at: int) -> (Seq<Record>, bool)
    decreases s.len() - at,
{
    if at < 0 || at + 4 > s.len() {
        (Seq::empty(), false)
    } else if at + 4 * kind.numbers() > s.len() {
        (Seq::empty(), true)
    } else {
        let r = kind.record(s, at);
        let end = at + 4 * kind.numbers() + r.len;
        if end > s.len() {
            (Seq::empty(), false)
        } else {
            let rest = records_found(kind, s, end);
            (seq![r] + rest.0, rest.1)
        }
    }
}

/// Reads the records of a file.
pub fn read_records(kind: RecordKind, s: &[u8]) -> (r: Records)
    ensures
        (r.records@, r.truncated) == records_found(kind, s@, 0),
{
    let len: usize = s.len();
    let ghost all = records_found(kind, s@, 0);
    let head: usize = match kind {
        RecordKind::Dred => 12,
        RecordKind::Opus => 8,
    };
    let mut records: Vec<Record> = Vec::new();
    let mut at: usize = 0;
    assert(records@ + records_found(kind, s@, 0).0 =~= all.0);
    while len - at >= 4
        invariant
            at <= len,
            len == s@.len(),
            len == s.len(),
            head == 4 * kind.numbers(),
            all == records_found(kind, s@, 0),
            all.0 == records@ + records_found(kind, s@, at as int).0,
            all.1 == records_found(kind, s@, at as int).1,
        decreases len - at,
    {
        if len - at < head {
            assert(records@ + Seq::<Record>::empty() =~= records@);
            return Records { records, truncated: true };
        }
        let first: u32 = match read_u32_be(s, at) {
            Some(v) => v,
            None => 0,
        };
        let second: u32 = match read_u32_be(s, at + 4) {
            Some(v) => v,
            None => 0,
        };
        let size: u32 = match kind {
            RecordKind::Dred => match read_u32_be(s, at + 8) {
                Some(v) => v,
                None => 0,
            },
            RecordKind::Opus => first,
        };
        let from: usize = at + head;
        if len - from < size as usize {
            assert(records@ + Seq::<Record>::empty() =~= records@);
            return Records { records, truncated: false };
        }
        let ghost before = records@;
        let record: Record = Record { first, second, from, len: size as usize };
        records.push(record);
        assert(record == kind.record(s@, at as int));
        at = from + size as usize;
        assert(before + (seq![record] + records_found(kind, s@, at as int).0) =~= records@
            + records_found(kind, s@, at as int).0);
    }
    assert(records@ + Seq::<Record>::empty() =~= records@);
    Records { records, truncated: false }
}

/// Features of a frame.
pub const NB_FEATURES: usize = 20;

/// Samples of a window in which recordings are compared.
pub const TEST_WIN_SIZE: usize = 640;

/// Samples between two windows.
pub const TEST_WIN_STEP: usize = 160;

/// Why two files cannot be compared.
#[derive(Clone, Copy, Debug, PartialEq, Eq, Structural)]
pub enum ShapeError {
    /// Features that do not fill their last frame.
    PartialFrame,
    /// Files of different lengths.
    LengthMismatch,
    /// Nothing to compare.
    Empty,
    /// Too few samples for a window.
    TooShort,
}

/// Frames of two lists of features that can be compared.
pub fn feature_frames(reference: usize, actual: usize) -> (r: Result<usize, ShapeError>)
    ensures
        r == (if reference % NB_FEATURES != 0 || actual % NB_FEATURES != 0 {
            Err::<usize, ShapeError>(ShapeError::PartialFrame)
        } else if reference != actual {
            Err::<usize, ShapeError>(ShapeError::LengthMismatch)
        } else if reference == 0 {
            Err::<usize, ShapeError>(ShapeError::Empty)
        } else {
            Ok::<usize, ShapeError>(reference / NB_FEATURES)
        }),
{
    if reference % NB_FEATURES != 0 || actual % NB_FEATURES != 0 {
        Err(ShapeError::PartialFrame)
    } else if reference != actual {
        Err(ShapeError::LengthMismatch)
    } else if reference == 0 {
        Err(ShapeError::Empty)
    } else {
        Ok(reference / NB_FEATURES)
    }
}

/// Windows of two recordings that can be compared; the second may be longer.
pub fn audio_frames(reference: usize, actual: usize) -> (r: Result<usize, ShapeError>)
    ensures
        r == (if actual < reference {
            Err::<usize, ShapeError>(ShapeError::LengthMismatch)
        } else if reference < TEST_WIN_SIZE {
            Err::<usize, ShapeError>(ShapeError::TooShort)
        } else {
            Ok::<usize, ShapeError>(
                ((reference - TEST_WIN_SIZE + TEST_WIN_STEP) / TEST_WIN_STEP as int) as usize,
            )
        }),
{
    if actual < reference {
        Err(ShapeError::LengthMismatch)
    } else if reference < TEST_WIN_SIZE {
        Err(ShapeError::TooShort)
    } else {
        Ok((reference - TEST_WIN_SIZE + TEST_WIN_STEP) / TEST_WIN_STEP)
    }
}

/// Samples that are synthesised from one frame of features.
pub const SYNTHESIS_FRAME: usize = 160;

/// One step of a synthesis: the frame of features it runs on, and the samples of
/// its output that are kept.
#[derive(Clone, Copy, Debug, PartialEq, Eq, Structural)]
pub struct SynthesisStep {
    pub frame: usize,
    pub from: usize,
    pub to: usize,
}

/// Step `i` of a synthesis from `frames` frames. The first frame starts it, and
/// the last one is repeated twice; half a frame is dropped at both ends.
pub open spec fn synthesis_step(frames: int, i: int) -> SynthesisStep {
    SynthesisStep {
        frame: (if i + 1 < frames { i + 1 } else { frames - 1 }) as usize,
        from: if i == 0 { 80 } else { 0 },
        to: if i == frames { 80 } else { 160 },
    }
}

/// The steps of a synthesis.
pub fn synthesis_steps(features: usize) -> (r: Result<Vec<SynthesisStep>, ShapeError>)
    requires
        features < usize::MAX,
    ensures
        if features % NB_FEATURES != 0 {
            r == Err::<Vec<SynthesisStep>, ShapeError>(ShapeError::PartialFrame)
        } else if features == 0 {
            r == Err::<Vec<SynthesisStep>, ShapeError>(ShapeError::Empty)
        } else {
            let frames = features / NB_FEATURES;
            r matches Ok(steps) && steps@ == Seq::new(
                (frames + 1) as nat,
                |i: int| synthesis_step(frames as int, i),
            )
        },
{
    if features % NB_FEATURES != 0 {
        return Err(ShapeError::PartialFrame);
    }
    if features == 0 {
        return Err(ShapeError::Empty);
    }
    let frames: usize = features / NB_FEATURES;
    let mut steps: Vec<SynthesisStep> = Vec::new();
    for i in 0..frames + 1
        invariant
            1 <= frames < usize::MAX,
            steps@.len() == i,
            forall|k: int| 0 <= k < i ==> #[trigger] steps@[k] == synthesis_step(frames as int, k),
    {
        steps.push(
            SynthesisStep {
                frame: if i < frames - 1 { i + 1 } else { frames - 1 },
                from: if i == 0 { 80 } else { 0 },
                to: if i == frames { 80 } else { 160 },
            },
        );
    }
    assert(steps@ =~= Seq::new((frames + 1) as nat, |i: int| synthesis_step(frames as int, i)));
    Ok(steps)
}

/// Samples that the first `n` steps keep.
pub open spec fn samples_kept(frames: int, n: int) -> int
    decreases n,
{
    if n <= 0 {
        0
    } else {
        let step = synthesis_step(frames, n - 1);
        samples_kept(frames, n - 1) + (step.to - step.from)
    }
}

/// Samples that all steps but the last one keep.
proof fn lemma_kept(frames: int, n: int)
    requires
        1 <= n <= frames,
    ensures
        samples_kept(frames, n) == n * SYNTHESIS_FRAME - 80,
    decreases n,
{
    reveal_with_fuel(samples_kept, 2);
    if n > 1 {
        lemma_kept(frames, n - 1);
    }
}

/// A synthesis gives as many samples as its frames of features stand for.
pub proof fn law_synthesis_keeps_the_length(frames: int)
    requires
        1 <= frames,
    ensures
        samples_kept(frames, frames + 1) == frames * SYNTHESIS_FRAME,
{
    lemma_kept(frames, frames);
    let last = synthesis_step(frames, frames);
    assert(last.to - last.from == 80);
    assert(samples_kept(frames, frames + 1) == samples_kept(frames, frames) + (last.to
        - last.from));
}

/// Most samples per channel in a packet of 120 milliseconds.
pub fn longest_packet(sample_rate: i32) -> (n: usize)
    requires
        0 <= sample_rate <= 48000,
    ensures
        n == 6 * sample_rate / 50,
{
    (6 * sample_rate / 50) as usize
}

} // verus!
