//! What the virtual device of this machine can do.

use vstd::prelude::*;

verus! {

/// The number of key codes.
pub const KEY_COUNT: u16 = 0x300;

/// The number of relative axes.
pub const AXIS_COUNT: u16 = 0x10;

/// The axis of the wheel.
pub const REL_WHEEL: u16 = 8;

/// The axis of the horizontal wheel.
pub const REL_HWHEEL: u16 = 6;

/// A set of keys: `evdev::AttributeSet` over `evdev::KeyCode`.
#[verifier::external_body]
pub struct KeySet {
    pub set: evdev::AttributeSet<evdev::KeyCode>,
}

/// A set of relative axes: `evdev::AttributeSet` over
/// `evdev::RelativeAxisCode`.
#[verifier::external_body]
pub struct AxisSet {
    pub set: evdev::AttributeSet<evdev::RelativeAxisCode>,
}

/// The codes in a set of keys.
pub uninterp spec fn key_codes(keys: KeySet) -> Set<u16>;

/// The codes in a set of axes.
pub uninterp spec fn axis_codes(axes: AxisSet) -> Set<u16>;

/// `evdev::AttributeSet::new`: a set without keys.
#[verifier::external_body]
fn no_keys() -> (r: KeySet)
    ensures
        key_codes(r) == Set::<u16>::empty(),
{
    KeySet { set: evdev::AttributeSet::new() }
}

/// `evdev::AttributeSetRef::insert` on keys: adds one key. A code outside the
/// range of key codes would make it panic.
#[verifier::external_body]
fn insert_key(keys: &mut KeySet, code: u16)
    requires
        code < KEY_COUNT,
    ensures
        key_codes(*final(keys)) == key_codes(*old(keys)).insert(code),
{
    keys.set.insert(evdev::KeyCode::new(code))
}

/// `evdev::AttributeSet::new`: a set without axes.
#[verifier::external_body]
fn no_axes() -> (r: AxisSet)
    ensures
        axis_codes(r) == Set::<u16>::empty(),
{
    AxisSet { set: evdev::AttributeSet::new() }
}

/// `evdev::AttributeSetRef::insert` on axes: adds one axis. A code outside the
/// range of axes would make it panic.
#[verifier::external_body]
fn insert_axis(axes: &mut AxisSet, code: u16)
    requires
        code < AXIS_COUNT,
    ensures
        axis_codes(*final(axes)) == axis_codes(*old(axes)).insert(code),
{
    axes.set.insert(evdev::RelativeAxisCode(code))
}

/// Whether the virtual device has a key: the keys of a standard keyboard, from
/// `KEY_ESC` to `KEY_MICMUTE`, and the buttons of a mouse, from `BTN_LEFT` to
/// `BTN_TASK`.
pub open spec fn is_virtual_key(code: u16) -> bool {
    1 <= code <= 248 || 0x110 <= code < 0x118
}

/// Whether the virtual device has an axis: both directions of movement and
/// both wheels.
pub open spec fn is_virtual_axis(code: u16) -> bool {
    code == 0 || code == 1 || code == REL_WHEEL || code == REL_HWHEEL
}

/// Adds the keys from `from` up to, but not with, `to`.
fn insert_keys(keys: &mut KeySet, from: u16, to: u16)
    requires
        from <= to <= KEY_COUNT,
    ensures
        forall|c: u16| #[trigger]
            key_codes(*final(keys)).contains(c) <==> key_codes(*old(keys)).contains(c) || from <= c
                < to,
{
    let mut code: u16 = from;
    while code < to
        invariant
            from <= code <= to <= KEY_COUNT,
            forall|c: u16| #[trigger]
                key_codes(*keys).contains(c) <==> key_codes(*old(keys)).contains(c) || from <= c
                    < code,
        decreases to - code,
    {
        insert_key(keys, code);
        code = code + 1;
    }
}

/// The keys of the virtual device.
pub fn virtual_keys() -> (r: KeySet)
    ensures
        forall|c: u16| #[trigger] key_codes(r).contains(c) <==> is_virtual_key(c),
{
    let mut keys = no_keys();
    insert_keys(&mut keys, 1, 249);
    insert_keys(&mut keys, 0x110, 0x118);
    keys
}

/// The axes of the virtual device.
pub fn virtual_axes() -> (r: AxisSet)
    ensures
        forall|c: u16| #[trigger] axis_codes(r).contains(c) <==> is_virtual_axis(c),
{
    let mut axes = no_axes();
    insert_axis(&mut axes, 0);
    insert_axis(&mut axes, 1);
    insert_axis(&mut axes, REL_WHEEL);
    insert_axis(&mut axes, REL_HWHEEL);
    axes
}

/// Whether an open device is to be grabbed or let go, if either.
#[derive(Debug, Clone, Copy, PartialEq, Eq, Structural)]
pub enum GrabChange {
    Grab,
    Ungrab,
}

/// The change that makes a device grabbed exactly where it should be.
pub open spec fn grab_needed(should_grab: bool, grabbed: bool) -> Option<GrabChange> {
    if should_grab == grabbed {
        None
    } else if should_grab {
        Some(GrabChange::Grab)
    } else {
        Some(GrabChange::Ungrab)
    }
}

/// Whether a device is grabbed after a change.
pub open spec fn is_grabbed_after(grabbed: bool, change: Option<GrabChange>) -> bool {
    match change {
        None => grabbed,
        Some(GrabChange::Grab) => true,
        Some(GrabChange::Ungrab) => false,
    }
}

/// What to do with a device so that it is grabbed exactly where it should be.
pub fn grab_change(should_grab: bool, grabbed: bool) -> (r: Option<GrabChange>)
    ensures
        r == grab_needed(should_grab, grabbed),
{
    if should_grab == grabbed {
        None
    } else if should_grab {
        Some(GrabChange::Grab)
    } else {
        Some(GrabChange::Ungrab)
    }
}

/// The virtual device has every key from `KEY_ESC` (1) to `KEY_MICMUTE` (248),
/// every button from `BTN_LEFT` (272) to `BTN_TASK` (279), the axes of both
/// movements (0, 1) and both wheels (6, 8), and no others.
pub proof fn law_virtual_device_codes(code: u16)
    ensures
        is_virtual_key(code) <==> (0 < code && code < 249) || (271 < code && code < 280),
        is_virtual_axis(code) <==> code < 2 || code == 6 || code == 8,
{
}

/// The change that is needed leaves the device as it should be, and none is
/// needed where it is so already.
pub proof fn law_needed_change_reaches_what_should_be(should_grab: bool, grabbed: bool)
    ensures
        match grab_needed(should_grab, grabbed) {
            None => grabbed == should_grab,
            Some(GrabChange::Grab) => should_grab && !grabbed,
            Some(GrabChange::Ungrab) => !should_grab && grabbed,
        },
{
}

} // verus!
