//! The schedule of the headless frame capture: warm up, save one picture per
//! frame, give the last pictures time to flush, then quit.
use vstd::prelude::*;

use crate::numerals::{
    all_digits,
    decimal,
    digits_value,
    lemma_decimal_canonical,
    lemma_zero_padded,
    push_zero_padded,
    zero_padded,
};

verus! {

/// Frames spent flushing the last pictures before quitting.
pub const FLUSH_FRAMES: u32 = 8;

/// What the capture loop does on one frame.
#[derive(Clone, Copy, PartialEq, Eq, Structural, Debug)]
pub enum CaptureAction {
    /// Still warming up the scene: nothing is saved.
    WarmingUp,
    /// Save the picture of this frame as capture number `index`.
    Screenshot(u32),
    /// All pictures requested; waiting for them to reach the disk.
    Flushing,
    /// Done: quit the application.
    Exit,
}

/// State of the capture loop.
pub struct Capture {
    /// Frames seen so far.
    pub frame: u32,
    /// Frames to let the scene settle before saving anything.
    pub warmup: u32,
    /// How many pictures to save.
    pub frames: u32,
    /// Directory the pictures go to.
    pub out_dir: String,
}

/// The action for the frame numbered `frame`.
pub open spec fn planned(frame: u32, warmup: u32, frames: u32) -> CaptureAction {
    if frame < warmup {
        CaptureAction::WarmingUp
    } else if frame - warmup < frames {
        CaptureAction::Screenshot((frame - warmup) as u32)
    } else if frame - warmup >= frames + FLUSH_FRAMES {
        CaptureAction::Exit
    } else {
        CaptureAction::Flushing
    }
}

/// Whether the step on frame `frame` can be taken: the frame counter must not
/// run past `u32::MAX`, nor the end of the flush past it once it is reached.
pub open spec fn can_advance(frame: u32, warmup: u32, frames: u32) -> bool {
    &&& frame < u32::MAX
    &&& (frame >= warmup && frame - warmup >= frames) ==> frames + FLUSH_FRAMES <= u32::MAX
}

/// The file a capture numbered `index` is saved to:
/// `{out_dir}/frame_{index:04}.png`.
pub open spec fn frame_path_view(out_dir: Seq<char>, index: u32) -> Seq<char> {
    out_dir + "/frame_"@ + zero_padded(index as nat, 4) + ".png"@
}

impl Capture {
    /// Take one frame: count it and say what to do on it.
    pub fn advance(&mut self) -> (action: CaptureAction)
        requires
            can_advance(old(self).frame, old(self).warmup, old(self).frames),
        ensures
            final(self).frame == old(self).frame + 1,
            final(self).warmup == old(self).warmup,
            final(self).frames == old(self).frames,
            final(self).out_dir@ == old(self).out_dir@,
            action == planned(old(self).frame, old(self).warmup, old(self).frames),
    {
        let f = self.frame;
        self.frame = self.frame + 1;
        if f < self.warmup {
            return CaptureAction::WarmingUp;
        }
        let idx = f - self.warmup;
        if idx < self.frames {
            CaptureAction::Screenshot(idx)
        } else if idx >= self.frames + FLUSH_FRAMES {
            CaptureAction::Exit
        } else {
            CaptureAction::Flushing
        }
    }

    /// The file the capture numbered `index` is saved to.
    pub fn frame_path(&self, index: u32) -> (path: String)
        ensures
            path@ == frame_path_view(self.out_dir@, index),
    {
        let mut path = self.out_dir.clone();
        path.append("/frame_");
        push_zero_padded(&mut path, index, 4);
        path.append(".png");
        path
    }
}

/// Different captures go to different files, so no saved picture
/// overwrites another.
pub proof fn lemma_frame_paths_distinct(out_dir: Seq<char>, i: u32, j: u32)
    requires
        i != j,
    ensures
        frame_path_view(out_dir, i) != frame_path_view(out_dir, j),
{
    let a = out_dir + "/frame_"@;
    let zi = zero_padded(i as nat, 4);
    let zj = zero_padded(j as nat, 4);
    let b = ".png"@;
    assert(frame_path_view(out_dir, i) == a + zi + b);
    assert(frame_path_view(out_dir, j) == a + zj + b);
    if a + zi + b == a + zj + b {
        assert(zi.len() == zj.len());
        assert((a + zi + b).subrange(a.len() as int, a.len() + zi.len() as int) =~= zi);
        assert((a + zj + b).subrange(a.len() as int, a.len() + zj.len() as int) =~= zj);
        lemma_zero_padded(i as nat, 4);
        lemma_zero_padded(j as nat, 4);
    }
}

/// What each frame does, by where it falls: the first `warmup` frames warm
/// up, the next `frames` frames save pictures numbered from zero, the eight
/// after them flush, and every later frame quits.
pub proof fn lemma_capture_phases(frame: u32, warmup: u32, frames: u32)
    ensures
        planned(frame, warmup, frames) == CaptureAction::WarmingUp <==> frame < warmup,
        planned(frame, warmup, frames) is Screenshot <==> warmup <= frame < warmup + frames,
        warmup <= frame < warmup + frames ==> planned(frame, warmup, frames)
            == CaptureAction::Screenshot((frame - warmup) as u32),
        planned(frame, warmup, frames) == CaptureAction::Flushing <==> warmup + frames <= frame
            < warmup + frames + 8,
        planned(frame, warmup, frames) == CaptureAction::Exit <==> frame >= warmup + frames + 8,
{
}

/// A picture's file lies in the output directory, is named `frame_` then its
/// number, at least four digits long and zero-padded, then `.png`.
pub proof fn lemma_frame_path_shape(out_dir: Seq<char>, index: u32)
    ensures
        ({
            let p = frame_path_view(out_dir, index);
            let head = out_dir + "/frame_"@;
            let digits = p.subrange(head.len() as int, p.len() - 4);
            &&& p.len() >= head.len() + 8
            &&& p.subrange(0, head.len() as int) == head
            &&& p.subrange(p.len() - 4, p.len() as int) == ".png"@
            &&& all_digits(digits)
            &&& digits_value(digits) == index
            &&& digits.len() >= 4
            &&& (digits.len() > 4 ==> digits[0] != '0')
        }),
{
    reveal_strlit(".png");
    let head = out_dir + "/frame_"@;
    let z = zero_padded(index as nat, 4);
    let p = frame_path_view(out_dir, index);
    lemma_zero_padded(index as nat, 4);
    lemma_decimal_canonical(index as nat);
    assert(p == head + z + ".png"@);
    assert(p.subrange(0, head.len() as int) =~= head);
    assert(p.subrange(p.len() - 4, p.len() as int) =~= ".png"@);
    assert(p.subrange(head.len() as int, p.len() - 4) =~= z);
    if z.len() > 4 {
        assert(z.len() == decimal(index as nat).len());
        assert(z.subrange(0, z.len() as int) =~= z);
        assert(z[0] == decimal(index as nat)[0]);
    }
}

/// The indices saved by the first `steps` frames of a capture, in order.
pub open spec fn saved(warmup: u32, frames: u32, steps: nat) -> Seq<u32>
    decreases steps,
{
    if steps == 0 {
        Seq::empty()
    } else {
        let earlier = saved(warmup, frames, (steps - 1) as nat);
        match planned((steps - 1) as u32, warmup, frames) {
            CaptureAction::Screenshot(i) => earlier.push(i),
            _ => earlier,
        }
    }
}

/// A run that starts at frame zero saves exactly the pictures `0, 1, ...,
/// frames - 1`, each once and in order, by the end of its capture window;
/// and it quits on frame `warmup + frames + 8` and on no frame before.
pub proof fn lemma_capture_run(warmup: u32, frames: u32, steps: nat)
    requires
        warmup + frames + FLUSH_FRAMES <= u32::MAX,
        warmup + frames <= steps <= u32::MAX,
    ensures
        saved(warmup, frames, steps) == Seq::new(frames as nat, |i: int| i as u32),
        forall|f: u32|
            #![trigger planned(f, warmup, frames)]
            (planned(f, warmup, frames) == CaptureAction::Exit) <==> f >= warmup + frames
                + FLUSH_FRAMES,
{
    lemma_saved_prefix(warmup, frames, steps);
}

/// The pictures saved after `steps` frames are those numbered below the
/// number of capture frames reached so far.
proof fn lemma_saved_prefix(warmup: u32, frames: u32, steps: nat)
    requires
        steps <= u32::MAX,
    ensures
        saved(warmup, frames, steps) == Seq::new(
            if steps <= warmup {
                0nat
            } else if steps - warmup <= frames {
                (steps - warmup) as nat
            } else {
                frames as nat
            },
            |i: int| i as u32,
        ),
    decreases steps,
{
    if steps > 0 {
        lemma_saved_prefix(warmup, frames, (steps - 1) as nat);
    }
    let n = if steps <= warmup {
        0nat
    } else if steps - warmup <= frames {
        (steps - warmup) as nat
    } else {
        frames as nat
    };
    assert(saved(warmup, frames, steps) =~= Seq::new(n, |i: int| i as u32));
}

} // verus!
