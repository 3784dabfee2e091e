//! Events and their serialized form: the basic unit of delivery, and the
//! deterministic mapping from an event to the channels it is published on.

use vstd::prelude::*;

use crate::channel::KeyEvent;
use crate::channel::MouseEvent;
use crate::channel::SubV;
use crate::channel::Subscription;
use crate::discrim::Discriminator;

verus! {

/// A basic, generic unit of event.
pub enum Event {
    /// keyboard event
    KeyPress(KeyEvent),
    /// events related to the mouse
    MouseEvent(MouseEvent),
    /// screen resize event
    ScreenResize(u32, u32),
    /// the receiving component became focused
    Focus,
    /// the receiving component lost focus
    Unfocus,
    /// message sent from a component
    Message {
        sender: Discriminator,
        target: Discriminator,
        content: Vec<u8>,
        tag: Vec<u8>,
    },
}

/// The views of a sequence of channel selectors.
pub open spec fn views_of_subs(s: Seq<Subscription>) -> Seq<SubV> {
    s.map_values(|x: Subscription| x@)
}

/// The channels an event is published on, in order.
pub open spec fn spec_channels(e: Event) -> Seq<SubV> {
    match e {
        Event::KeyPress(key) => seq![
            SubV::Everything,
            SubV::AllKeyPresses,
            SubV::SpecificKeyPress { key },
            SubV::SpecificKeyCode { code: key.code },
            SubV::SpecificKeyModifier { modifier: key.modifier },
        ],
        Event::MouseEvent(mouse) => seq![
            SubV::Everything,
            SubV::AllMouseEvents,
            SubV::SpecificMouseEvent { mouse: mouse.mousetype },
        ],
        Event::ScreenResize(_, _) => seq![SubV::Everything, SubV::ScreenResize],
        Event::Focus => seq![SubV::Everything, SubV::Focused],
        Event::Unfocus => seq![SubV::Everything, SubV::Unfocused],
        Event::Message { sender, target, content, tag } => seq![
            SubV::Everything,
            SubV::AllMessages,
            SubV::SpecificMessage { source: sender@ },
            SubV::SpecificMessageTag { tag: tag@ },
        ],
    }
}

impl Event {
    /// The channels this event is published on; an event is delivered to the
    /// union of the subscribers of these channels.
    pub fn subscriptions(&self) -> (r: Vec<Subscription>)
        ensures
            views_of_subs(r@) == spec_channels(*self),
    {
        let mut r: Vec<Subscription> = Vec::new();
        match self {
            Event::KeyPress(key) => {
                r.push(Subscription::Everything);
                r.push(Subscription::AllKeyPresses);
                r.push(Subscription::SpecificKeyPress { key: *key });
                r.push(Subscription::SpecificKeyCode { code: key.code });
                r.push(Subscription::SpecificKeyModifier { modifier: key.modifier });
            },
            Event::MouseEvent(mouse) => {
                r.push(Subscription::Everything);
                r.push(Subscription::AllMouseEvents);
                r.push(Subscription::SpecificMouseEvent { mouse: mouse.mousetype });
            },
            Event::ScreenResize(_, _) => {
                r.push(Subscription::Everything);
                r.push(Subscription::ScreenResize);
            },
            Event::Focus => {
                r.push(Subscription::Everything);
                r.push(Subscription::Focused);
            },
            Event::Unfocus => {
                r.push(Subscription::Everything);
                r.push(Subscription::Unfocused);
            },
            Event::Message { sender, target, content, tag } => {
                r.push(Subscription::Everything);
                r.push(Subscription::AllMessages);
                r.push(Subscription::SpecificMessage { source: sender.clone() });
                r.push(Subscription::SpecificMessageTag { tag: crate::util::dup_bytes(tag) });
            },
        }
        proof {
            assert(views_of_subs(r@) =~= spec_channels(*self));
        }
        r
    }
}

/// The serialized form of an event, as delivered to a component.
pub enum EventSerde {
    /// keyboard event
    Key(KeyEvent),
    /// mouse event
    Mouse(MouseEvent),
    /// screen resize event
    Resize { width: u32, height: u32 },
    /// message passed from another component
    Message {
        sender: Discriminator,
        target: Discriminator,
        content: Vec<u8>,
        tag: Vec<u8>,
    },
    /// the receiver became focused
    Focused,
    /// the receiver lost focus
    Unfocused,
    /// a watched pool entry was overwritten
    ValueUpdated { label: Vec<u8>, new: Vec<u8>, discrim: Discriminator },
    /// a watched pool entry was cleared
    ValueRemoved { label: Vec<u8>, discrim: Discriminator },
}

impl EventSerde {
    /// The serialized form of `value`.
    pub fn from_event(value: &Event) -> (r: EventSerde)
        ensures
            value matches Event::KeyPress(k) ==> r matches EventSerde::Key(k2) && k2 == k,
            value matches Event::MouseEvent(m) ==> r matches EventSerde::Mouse(m2) && m2 == m,
            value matches Event::ScreenResize(w, h) ==> r matches EventSerde::Resize {
                width,
                height,
            } && width == w && height == h,
            value is Focus ==> r is Focused,
            value is Unfocus ==> r is Unfocused,
            value matches Event::Message { sender, target, content, tag } ==> r matches
                EventSerde::Message { sender: s2, target: t2, content: c2, tag: g2 } && s2@
                == sender@ && t2@ == target@ && c2@ == content@ && g2@ == tag@,
    {
        match value {
            Event::KeyPress(key) => EventSerde::Key(*key),
            Event::MouseEvent(mouse) => EventSerde::Mouse(*mouse),
            Event::ScreenResize(width, height) => EventSerde::Resize {
                width: *width,
                height: *height,
            },
            Event::Focus => EventSerde::Focused,
            Event::Unfocus => EventSerde::Unfocused,
            Event::Message { sender, target, content, tag } => EventSerde::Message {
                sender: sender.clone(),
                target: target.clone(),
                content: crate::util::dup_bytes(content),
                tag: crate::util::dup_bytes(tag),
            },
        }
    }
}

} // verus!
