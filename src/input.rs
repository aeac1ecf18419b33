//! The input subsystem: one main input device, its pending events, and the
//! queries that applications make of it.

use vstd::prelude::*;

verus! {

/// One input event: its type, its code within the type, and its value.
#[derive(Clone, Copy, Debug, PartialEq, Eq, Structural)]
pub struct InputEvent {
    pub event_type: u16,
    pub code: u16,
    pub value: u32,
}

/// An input device: its name, a description, and the events it has pending,
/// oldest first.
pub struct InputDevice {
    name: String,
    info: String,
    pending: Vec<InputEvent>,
}

impl InputDevice {
    /// The device's name.
    pub closed spec fn spec_name(&self) -> Seq<char> {
        self.name@
    }

    /// The device's description.
    pub closed spec fn spec_info(&self) -> Seq<char> {
        self.info@
    }

    /// Events not yet taken, oldest first.
    pub closed spec fn events(&self) -> Seq<InputEvent> {
        self.pending@
    }

    /// A device with no pending events.
    pub fn new(name: String, info: String) -> (r: InputDevice)
        ensures
            r.spec_name() == name@,
            r.spec_info() == info@,
            r.events().len() == 0,
    {
        InputDevice { name, info, pending: Vec::new() }
    }

    /// Queues an event that the device reported.
    pub fn push_event(&mut self, ev: InputEvent)
        ensures
            final(self).events() == old(self).events().push(ev),
            final(self).spec_name() == old(self).spec_name(),
            final(self).spec_info() == old(self).spec_info(),
    {
        self.pending.push(ev);
    }
}

/// The input subsystem, with its main device once initialised.
pub struct InputSubsystem {
    main: Option<InputDevice>,
}

impl InputSubsystem {
    /// The main device, once initialised.
    pub closed spec fn device(&self) -> Option<InputDevice> {
        self.main
    }

    /// No device yet.
    pub fn new() -> (r: InputSubsystem)
        ensures
            r.device() is None,
    {
        InputSubsystem { main: None }
    }

    /// Takes the first of the devices found as the main input device. At
    /// least one device must have been found.
    pub fn init_input(&mut self, devices: Vec<InputDevice>)
        requires
            devices@.len() > 0,
        ensures
            final(self).device() == Some(devices@[0]),
    {
        let mut devices = devices;
        let dev = devices.remove(0);
        self.main = Some(dev);
    }

    /// Takes the oldest pending event of the main device, if any.
    pub fn poll_event(&mut self) -> (r: Option<InputEvent>)
        ensures
            old(self).device() is None ==> r is None && final(self).device() is None,
            old(self).device() matches Some(d) ==> {
                if d.events().len() == 0 {
                    r is None && final(self).device() == old(self).device()
                } else {
                    &&& r == Some(d.events()[0])
                    &&& final(self).device() is Some
                    &&& final(self).device().unwrap().events() == d.events().drop_first()
                    &&& final(self).device().unwrap().spec_name() == d.spec_name()
                    &&& final(self).device().unwrap().spec_info() == d.spec_info()
                }
            },
    {
        match &mut self.main {
            None => None,
            Some(dev) => {
                if dev.pending.len() == 0 {
                    None
                } else {
                    let ev = dev.pending.remove(0);
                    proof {
                        assert(dev.pending@ =~= old(self).device().unwrap().events().drop_first());
                    }
                    Some(ev)
                }
            },
        }
    }

    /// Whether the main device has pending events.
    pub fn has_events(&self) -> (r: bool)
        ensures
            r == (self.device() matches Some(d) && d.events().len() > 0),
    {
        match &self.main {
            None => false,
            Some(dev) => dev.pending.len() > 0,
        }
    }

    /// The main device's description.
    pub fn device_info(&self) -> (r: Option<String>)
        ensures
            self.device() is None ==> r is None,
            self.device() matches Some(d) ==> r is Some && r.unwrap()@ == d.spec_info(),
    {
        match &self.main {
            None => None,
            Some(dev) => Some(dev.info.clone()),
        }
    }

    /// The main device's name.
    pub fn device_name(&self) -> (r: Option<String>)
        ensures
            self.device() is None ==> r is None,
            self.device() matches Some(d) ==> r is Some && r.unwrap()@ == d.spec_name(),
    {
        match &self.main {
            None => None,
            Some(dev) => Some(dev.name.clone()),
        }
    }
}

/// Takes the oldest pending event of the main input device, if any.
pub fn ax_input_poll_event(input: &mut InputSubsystem) -> (r: Option<InputEvent>)
    ensures
        r is Some <==> (old(input).device() matches Some(d) && d.events().len() > 0),
        r matches Some(ev) ==> ev == old(input).device().unwrap().events()[0],
{
    input.poll_event()
}

/// Whether the main input device has pending events.
pub fn ax_input_has_events(input: &InputSubsystem) -> (r: bool)
    ensures
        r == (input.device() matches Some(d) && d.events().len() > 0),
{
    input.has_events()
}

/// A description of the main input device, if there is one.
pub fn ax_input_device_info(input: &InputSubsystem) -> (r: Option<String>)
    ensures
        input.device() is None ==> r is None,
        input.device() matches Some(d) ==> r is Some && r.unwrap()@ == d.spec_info(),
{
    input.device_info()
}

/// The name of the main input device, if there is one.
pub fn ax_input_device_name(input: &InputSubsystem) -> (r: Option<String>)
    ensures
        input.device() is None ==> r is None,
        input.device() matches Some(d) ==> r is Some && r.unwrap()@ == d.spec_name(),
{
    input.device_name()
}

/// Event type of a synchronisation marker.
pub const EV_SYN: u16 = 0x00;
/// Event type of a key or button.
pub const EV_KEY: u16 = 0x01;
/// Event type of a relative axis movement.
pub const EV_REL: u16 = 0x02;
/// Event type of an absolute axis position.
pub const EV_ABS: u16 = 0x03;
/// Code of the X axis.
pub const AXIS_X: u16 = 0x00;
/// Code of the Y axis.
pub const AXIS_Y: u16 = 0x01;
/// Largest coordinate that a tablet reports.
pub const TABLET_MAX: u64 = 32767;

/// Where the pointer is, and whether its button is held.
#[derive(Clone, Copy, Debug, PartialEq, Eq, Structural)]
pub struct Pointer {
    pub x: u32,
    pub y: u32,
    pub pressed: bool,
}

/// What to do after an event.
#[derive(Clone, Copy, Debug, PartialEq, Eq, Structural)]
pub enum PointerAction {
    /// Nothing.
    Idle,
    /// Draw a line from the screen's corner to this screen position.
    DrawTo { x: u64, y: u64 },
    /// Report that the pointer moved to this tablet position.
    Moved { x: u32, y: u32 },
}

/// A tablet coordinate scaled to a screen of `len` pixels, rounded to
/// nearest.
pub open spec fn scale(v: u32, len: u32) -> u64 {
    ((v as int * (len as int - 1) + TABLET_MAX / 2) / TABLET_MAX as int) as u64
}

/// The pointer after `ev`, and what to do then, on a screen of
/// `(height, width)` pixels if there is one.
pub open spec fn pointer_step_spec(p: Pointer, ev: InputEvent, screen: Option<(u32, u32)>) -> (
    Pointer,
    PointerAction,
) {
    if ev.event_type == EV_REL && ev.code == AXIS_Y {
        (Pointer { y: p.y.wrapping_add(ev.value), ..p }, PointerAction::Idle)
    } else if ev.event_type == EV_REL && ev.code == AXIS_X {
        (Pointer { x: p.x.wrapping_add(ev.value), ..p }, PointerAction::Idle)
    } else if ev.event_type == EV_ABS && ev.code == AXIS_X {
        (Pointer { x: ev.value, ..p }, PointerAction::Idle)
    } else if ev.event_type == EV_ABS && ev.code == AXIS_Y {
        (Pointer { y: ev.value, ..p }, PointerAction::Idle)
    } else if ev.event_type == EV_KEY {
        (Pointer { pressed: ev.value == 1, ..p }, PointerAction::Idle)
    } else if ev.event_type == EV_SYN && p.pressed {
        match screen {
            Some((h, w)) => (p, PointerAction::DrawTo { x: scale(p.x, w), y: scale(p.y, h) }),
            None => (p, PointerAction::Moved { x: p.x, y: p.y }),
        }
    } else {
        (p, PointerAction::Idle)
    }
}

/// Folds one input event into the pointer: relative movements add to it
/// (wrapping), absolute positions set it, a key sets the button, and a
/// synchronisation marker with the button held asks to draw towards the
/// pointer, or to report it where there is no screen.
pub fn pointer_step(p: Pointer, ev: InputEvent, screen: Option<(u32, u32)>) -> (r: (Pointer, PointerAction))
    requires
        screen matches Some((h, w)) ==> h > 0 && w > 0,
    ensures
        r == pointer_step_spec(p, ev, screen),
{
    if ev.event_type == EV_REL && ev.code == AXIS_Y {
        (Pointer { y: p.y.wrapping_add(ev.value), ..p }, PointerAction::Idle)
    } else if ev.event_type == EV_REL && ev.code == AXIS_X {
        (Pointer { x: p.x.wrapping_add(ev.value), ..p }, PointerAction::Idle)
    } else if ev.event_type == EV_ABS && ev.code == AXIS_X {
        (Pointer { x: ev.value, ..p }, PointerAction::Idle)
    } else if ev.event_type == EV_ABS && ev.code == AXIS_Y {
        (Pointer { y: ev.value, ..p }, PointerAction::Idle)
    } else if ev.event_type == EV_KEY {
        (Pointer { pressed: ev.value == 1, ..p }, PointerAction::Idle)
    } else if ev.event_type == EV_SYN && p.pressed {
        match screen {
            Some((h, w)) => {
                proof {
                    assert(p.x as int * (w as int - 1) <= 0xffff_ffff * 0xffff_ffff) by (nonlinear_arith)
                        requires
                            p.x <= 0xffff_ffff,
                            0 <= w as int - 1 <= 0xffff_ffff,
                    ;
                    assert(p.y as int * (h as int - 1) <= 0xffff_ffff * 0xffff_ffff) by (nonlinear_arith)
                        requires
                            p.y <= 0xffff_ffff,
                            0 <= h as int - 1 <= 0xffff_ffff,
                    ;
                }
                let ax = (p.x as u64 * (w as u64 - 1) + TABLET_MAX / 2) / TABLET_MAX;
                let ay = (p.y as u64 * (h as u64 - 1) + TABLET_MAX / 2) / TABLET_MAX;
                (p, PointerAction::DrawTo { x: ax, y: ay })
            },
            None => (p, PointerAction::Moved { x: p.x, y: p.y }),
        }
    } else {
        (p, PointerAction::Idle)
    }
}

} // verus!
