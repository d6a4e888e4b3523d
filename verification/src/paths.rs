//! Agent paths: framing the flat buffer that carries them, and finding
//! where on its path an agent is.
//!
//! Positions and times are measured by the caller. This module works on
//! what is countable about a path: where its waypoints lie in the buffer,
//! and which of them the clock has reached.

use vstd::prelude::*;

verus! {

/// Numbers at the head of each path in the buffer: identity, colour, speed
/// and the count of waypoints.
pub const HEADER_LEN: usize = 4;

/// Numbers per waypoint in the buffer: x, y and arrival time.
pub const WAYPOINT_LEN: usize = 3;

/// Where one path lies in the buffer. Positions count the buffer's numbers
/// from zero.
#[derive(Clone, Copy, PartialEq, Eq, Debug, Structural)]
pub struct PathFrame {
    /// The agent's identity.
    pub id: u32,
    /// The agent's colour as `0xRRGGBB`.
    pub color: u32,
    /// Position of the agent's speed.
    pub speed_at: usize,
    /// Position of the first waypoint's x.
    pub first_waypoint: usize,
    /// Number of whole waypoints the path has in the buffer, at least one.
    pub waypoint_count: usize,
}

/// `word` as a `u32`, or the largest `u32` if it does not fit.
pub open spec fn saturate_u32(word: u64) -> u32 {
    if word > u32::MAX {
        u32::MAX
    } else {
        word as u32
    }
}

/// The number of waypoints taken for a path that declares `declared` of
/// them and whose first waypoint would start at `first`, in a buffer of
/// `len` numbers: as many as declared, or as many whole ones as are left.
pub open spec fn accepted_waypoints(declared: u64, len: int, first: int) -> int {
    let room = (len - first) / (WAYPOINT_LEN as int);
    if declared < room {
        declared as int
    } else {
        room
    }
}

/// The frame of the path whose head starts at `at`.
pub open spec fn frame_at(words: Seq<u64>, at: int) -> PathFrame {
    PathFrame {
        id: saturate_u32(words[at]),
        color: saturate_u32(words[at + 1]),
        speed_at: (at + 2) as usize,
        first_waypoint: (at + HEADER_LEN) as usize,
        waypoint_count: accepted_waypoints(words[at + 3], words.len() as int, at + HEADER_LEN)
            as usize,
    }
}

/// The position just behind the path whose head starts at `at`.
pub open spec fn end_of_path(words: Seq<u64>, at: int) -> int {
    at + HEADER_LEN + WAYPOINT_LEN * accepted_waypoints(
        words[at + 3],
        words.len() as int,
        at + HEADER_LEN,
    )
}

/// The frames of the paths found from position `at` on. A path needs a
/// whole head. One without a whole waypoint is left out, and reading goes
/// on behind it.
pub open spec fn frames_from(words: Seq<u64>, at: int) -> Seq<PathFrame>
    decreases words.len() - at,
{
    if at < 0 || at + HEADER_LEN > words.len() {
        Seq::empty()
    } else {
        let rest = frames_from(words, end_of_path(words, at));
        if frame_at(words, at).waypoint_count == 0 {
            rest
        } else {
            seq![frame_at(words, at)] + rest
        }
    }
}

/// Whether the numbers that `frame` points at all lie in a buffer of `len`
/// numbers.
pub open spec fn frame_fits(frame: PathFrame, len: int) -> bool {
    &&& frame.waypoint_count >= 1
    &&& frame.speed_at + 2 == frame.first_waypoint
    &&& frame.first_waypoint + WAYPOINT_LEN * frame.waypoint_count <= len
}

/// Frames the paths in a buffer.
///
/// `words[k]` is the buffer's `k`-th number cut down to a whole number
/// that is not negative. The buffer is a run of paths: identity, colour,
/// speed, waypoint count, then three numbers per waypoint. A path whose
/// waypoints run past the end of the buffer keeps the whole ones; a path
/// left with none is dropped; numbers at the end that do not make a head
/// are ignored.
pub fn frame_paths(words: &Vec<u64>) -> (frames: Vec<PathFrame>)
    ensures
        frames@ == frames_from(words@, 0),
        forall|k: int| 0 <= k < frames@.len() ==> frame_fits(#[trigger] frames@[k], words@.len() as int),
        forall|k: int|
            0 <= k < frames@.len() - 1 ==> (#[trigger] frames@[k]).first_waypoint + WAYPOINT_LEN
                * frames@[k].waypoint_count <= frames@[k + 1].speed_at - 2,
{
    let len = words.len();
    let mut frames: Vec<PathFrame> = Vec::new();
    let mut at: usize = 0;
    assert(frames@ + frames_from(words@, 0) =~= frames_from(words@, 0));
    while len - at >= HEADER_LEN
        invariant
            at <= len,
            len == words@.len(),
            frames@ + frames_from(words@, at as int) == frames_from(words@, 0),
            forall|k: int| 0 <= k < frames@.len() ==> frame_fits(#[trigger] frames@[k], len as int),
            forall|k: int|
                0 <= k < frames@.len() - 1 ==> (#[trigger] frames@[k]).first_waypoint + WAYPOINT_LEN
                    * frames@[k].waypoint_count <= frames@[k + 1].speed_at - 2,
            frames@.len() > 0 ==> frames@.last().first_waypoint + WAYPOINT_LEN
                * frames@.last().waypoint_count <= at,
        decreases len - at,
    {
        let id = saturating_u32(words[at]);
        let color = saturating_u32(words[at + 1]);
        let declared = words[at + 3];
        let first = at + HEADER_LEN;
        let room = (len - first) / WAYPOINT_LEN;
        let count = if declared < room as u64 {
            declared as usize
        } else {
            room
        };
        let frame = PathFrame { id, color, speed_at: at + 2, first_waypoint: first, waypoint_count: count };
        assert(frame == frame_at(words@, at as int));
        let ghost before = frames@;
        let ghost rest = frames_from(words@, end_of_path(words@, at as int));
        if count > 0 {
            frames.push(frame);
            assert(frames@ + rest =~= before + (seq![frame] + rest));
        }
        at = first + WAYPOINT_LEN * count;
    }
    assert(frames@ + Seq::<PathFrame>::empty() =~= frames@);
    frames
}

/// Cuts a word down to a `u32`.
fn saturating_u32(word: u64) -> (cut: u32)
    ensures
        cut == saturate_u32(word),
{
    if word > u32::MAX as u64 {
        u32::MAX
    } else {
        word as u32
    }
}

/// The red, green and blue parts of a colour given as `0xRRGGBB`.
pub fn color_channels(color: u32) -> (rgb: (u32, u32, u32))
    ensures
        rgb.0 == (color >> 16) & 0xFF,
        rgb.1 == (color >> 8) & 0xFF,
        rgb.2 == color & 0xFF,
        rgb.0 <= 255 && rgb.1 <= 255 && rgb.2 <= 255,
        (rgb.0 << 16) | (rgb.1 << 8) | rgb.2 == color & 0xFF_FFFF,
{
    let red = (color >> 16) & 0xFF;
    let green = (color >> 8) & 0xFF;
    let blue = color & 0xFF;
    assert(red <= 255 && green <= 255 && blue <= 255 && (red << 16) | (green << 8) | blue == color
        & 0xFF_FFFF) by (bit_vector)
        requires
            red == (color >> 16) & 0xFF,
            green == (color >> 8) & 0xFF,
            blue == color & 0xFF,
    ;
    (red, green, blue)
}

/// How the clock stands to a waypoint's arrival time.
#[derive(Clone, Copy, PartialEq, Eq, Debug, Structural)]
pub enum Standing {
    /// The clock is before the arrival time.
    Before,
    /// The clock is at the arrival time or past it.
    Reached,
    /// The two do not compare: one of them is not a number.
    Unordered,
}

/// Where an agent is on its path.
#[derive(Clone, Copy, PartialEq, Eq, Debug, Structural)]
pub enum Progress {
    /// The path has no waypoint. The agent rests at the origin.
    Empty,
    /// The agent rests at the waypoint with this index.
    Settled(usize),
    /// The agent is under way on the segment from the waypoint with this
    /// index to the next one.
    Between(usize),
}

/// Whether the agent is on the segment that starts at waypoint `i`: the
/// clock has reached that waypoint and is before the next one.
pub open spec fn on_segment(standing: Seq<Standing>, i: int) -> bool {
    &&& 0 <= i < standing.len() - 1
    &&& standing[i] == Standing::Reached
    &&& standing[i + 1] == Standing::Before
}

/// Whether `i` starts the first segment that the agent is on.
pub open spec fn first_segment(standing: Seq<Standing>, i: int) -> bool {
    &&& on_segment(standing, i)
    &&& forall|j: int| 0 <= j < i ==> !on_segment(standing, j)
}

/// Where the agent is, given how the clock stands to each of its waypoints
/// in order.
///
/// A path of one waypoint rests there. On a longer path the agent is on
/// the first segment whose start the clock has reached and whose end it has
/// not. Where there is no such segment and the clock is before the first
/// waypoint without having reached the last, the agent is on the first
/// segment, before its start. In every other case it rests at the last
/// waypoint.
pub open spec fn progress_of(standing: Seq<Standing>) -> Progress {
    if standing.len() == 0 {
        Progress::Empty
    } else if standing.len() == 1 {
        Progress::Settled(0)
    } else if exists|i: int| first_segment(standing, i) {
        Progress::Between((choose|i: int| first_segment(standing, i)) as usize)
    } else if standing[0] == Standing::Before && standing.last() != Standing::Reached {
        Progress::Between(0)
    } else {
        Progress::Settled((standing.len() - 1) as usize)
    }
}

/// Finds where an agent is on its path.
pub fn locate(standing: &Vec<Standing>) -> (progress: Progress)
    ensures
        progress == progress_of(standing@),
{
    let len = standing.len();
    if len == 0 {
        return Progress::Empty;
    }
    if len == 1 {
        return Progress::Settled(0);
    }
    let mut i: usize = 0;
    while i < len - 1
        invariant
            len == standing@.len(),
            len >= 2,
            i <= len - 1,
            forall|j: int| 0 <= j < i ==> !on_segment(standing@, j),
        decreases len - i,
    {
        if standing[i] == Standing::Reached && standing[i + 1] == Standing::Before {
            proof {
                assert(first_segment(standing@, i as int));
                let chosen = choose|k: int| first_segment(standing@, k);
                assert(chosen == i) by {
                    if chosen < i {
                        assert(!on_segment(standing@, chosen));
                    } else if i < chosen {
                        assert(!on_segment(standing@, i as int));
                    }
                }
            }
            return Progress::Between(i);
        }
        i += 1;
    }
    assert(forall|k: int| !first_segment(standing@, k));
    if standing[0] == Standing::Before && !(standing[len - 1] == Standing::Reached) {
        Progress::Between(0)
    } else {
        Progress::Settled(len - 1)
    }
}

} // verus!
