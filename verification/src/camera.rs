//! The keyboard bindings of the orbit camera.
use vstd::prelude::*;

verus! {

/// The camera keys held down this frame, and whether the auto-orbit toggle
/// was pressed this frame.
#[derive(Clone, Copy, PartialEq, Eq, Structural, Debug)]
pub struct CameraKeys {
    pub arrow_left: bool,
    pub arrow_right: bool,
    pub arrow_up: bool,
    pub arrow_down: bool,
    pub key_a: bool,
    pub key_d: bool,
    pub key_w: bool,
    pub key_s: bool,
    pub key_q: bool,
    pub key_e: bool,
    pub equal: bool,
    pub minus: bool,
    pub space_just_pressed: bool,
}

/// What the keys ask of the orbit this frame.
#[derive(Clone, Copy, PartialEq, Eq, Structural, Debug)]
pub struct OrbitControl {
    /// Orbit to the left (yaw decreases).
    pub turn_left: bool,
    /// Orbit to the right (yaw increases).
    pub turn_right: bool,
    /// Tilt up (pitch increases).
    pub tilt_up: bool,
    /// Tilt down (pitch decreases).
    pub tilt_down: bool,
    /// Move closer (radius decreases).
    pub zoom_in: bool,
    /// Move away (radius increases).
    pub zoom_out: bool,
    /// Whether the camera orbits on its own from now on.
    pub auto: bool,
}

/// The bindings: arrows or WASD orbit, Q or `=` zoom in, E or `-` zoom out,
/// and Space flips auto-orbit.
pub open spec fn control_for(keys: CameraKeys, auto: bool) -> OrbitControl {
    OrbitControl {
        turn_left: keys.arrow_left || keys.key_a,
        turn_right: keys.arrow_right || keys.key_d,
        tilt_up: keys.arrow_up || keys.key_w,
        tilt_down: keys.arrow_down || keys.key_s,
        zoom_in: keys.key_q || keys.equal,
        zoom_out: keys.key_e || keys.minus,
        auto: auto != keys.space_just_pressed,
    }
}

/// Read the keys into orbit controls; `auto` is the auto-orbit setting so far.
pub fn orbit_control(keys: &CameraKeys, auto: bool) -> (c: OrbitControl)
    ensures
        c == control_for(*keys, auto),
        c.turn_left == (keys.arrow_left || keys.key_a),
        c.turn_right == (keys.arrow_right || keys.key_d),
        c.tilt_up == (keys.arrow_up || keys.key_w),
        c.tilt_down == (keys.arrow_down || keys.key_s),
        c.zoom_in == (keys.key_q || keys.equal),
        c.zoom_out == (keys.key_e || keys.minus),
        c.auto == (if keys.space_just_pressed {
            !auto
        } else {
            auto
        }),
{
    OrbitControl {
        turn_left: keys.arrow_left || keys.key_a,
        turn_right: keys.arrow_right || keys.key_d,
        tilt_up: keys.arrow_up || keys.key_w,
        tilt_down: keys.arrow_down || keys.key_s,
        zoom_in: keys.key_q || keys.equal,
        zoom_out: keys.key_e || keys.minus,
        auto: if keys.space_just_pressed {
            !auto
        } else {
            auto
        },
    }
}

/// Each control is asked for exactly when one of its two keys is held,
/// whatever else is held: left arrow or A turns left, right arrow or D turns
/// right, up arrow or W tilts up, down arrow or S tilts down, Q or `=` zooms
/// in, E or `-` zooms out; Space flips auto-orbit and nothing else does.
pub proof fn lemma_key_bindings(keys: CameraKeys, auto: bool)
    ensures
        control_for(keys, auto).turn_left <==> keys.arrow_left || keys.key_a,
        control_for(keys, auto).turn_right <==> keys.arrow_right || keys.key_d,
        control_for(keys, auto).tilt_up <==> keys.arrow_up || keys.key_w,
        control_for(keys, auto).tilt_down <==> keys.arrow_down || keys.key_s,
        control_for(keys, auto).zoom_in <==> keys.key_q || keys.equal,
        control_for(keys, auto).zoom_out <==> keys.key_e || keys.minus,
        control_for(keys, auto).auto <==> (auto && !keys.space_just_pressed) || (!auto
            && keys.space_just_pressed),
{
}

/// Pressing the toggle twice leaves auto-orbit as it was; not pressing it
/// never changes it.
pub proof fn lemma_toggle_involution(keys: CameraKeys, auto: bool)
    ensures
        control_for(keys, control_for(keys, auto).auto).auto == auto,
        !keys.space_just_pressed ==> control_for(keys, auto).auto == auto,
{
}

} // verus!
