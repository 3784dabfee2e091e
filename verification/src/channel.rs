//! Subscription channels: typed selectors matching classes of events, and the
//! plain key/mouse event data they select on.

use vstd::prelude::*;

use crate::discrim::Discriminator;
use crate::util::bytes_eq;
use crate::util::dup_bytes;

verus! {

/// A keyboard event: a key code together with the modifier held.
#[derive(Clone, Copy, PartialEq, Eq, Structural, Debug)]
pub struct KeyEvent {
    pub code: u32,
    pub modifier: u32,
}

/// A mouse event: a position and the kind of action.
#[derive(Clone, Copy, PartialEq, Eq, Structural, Debug)]
pub struct MouseEvent {
    pub x: u32,
    pub y: u32,
    pub mousetype: u32,
}

/// A channel selector: what class of events a pass or suppressor applies to.
pub enum Subscription {
    Everything,
    AllKeyPresses,
    AllMouseEvents,
    AllMessages,
    ScreenResize,
    Focused,
    Unfocused,
    SpecificKeyPress { key: KeyEvent },
    SpecificKeyCode { code: u32 },
    SpecificKeyModifier { modifier: u32 },
    SpecificMouseEvent { mouse: u32 },
    SpecificMessage { source: Discriminator },
    SpecificMessageTag { tag: Vec<u8> },
}

/// The mathematical value of a channel selector.
pub enum SubV {
    Everything,
    AllKeyPresses,
    AllMouseEvents,
    AllMessages,
    ScreenResize,
    Focused,
    Unfocused,
    SpecificKeyPress { key: KeyEvent },
    SpecificKeyCode { code: u32 },
    SpecificKeyModifier { modifier: u32 },
    SpecificMouseEvent { mouse: u32 },
    SpecificMessage { source: Seq<usize> },
    SpecificMessageTag { tag: Seq<u8> },
}

impl View for Subscription {
    type V = SubV;

    open spec fn view(&self) -> SubV {
        match self {
            Subscription::Everything => SubV::Everything,
            Subscription::AllKeyPresses => SubV::AllKeyPresses,
            Subscription::AllMouseEvents => SubV::AllMouseEvents,
            Subscription::AllMessages => SubV::AllMessages,
            Subscription::ScreenResize => SubV::ScreenResize,
            Subscription::Focused => SubV::Focused,
            Subscription::Unfocused => SubV::Unfocused,
            Subscription::SpecificKeyPress { key } => SubV::SpecificKeyPress { key: *key },
            Subscription::SpecificKeyCode { code } => SubV::SpecificKeyCode { code: *code },
            Subscription::SpecificKeyModifier { modifier } => SubV::SpecificKeyModifier {
                modifier: *modifier,
            },
            Subscription::SpecificMouseEvent { mouse } => SubV::SpecificMouseEvent {
                mouse: *mouse,
            },
            Subscription::SpecificMessage { source } => SubV::SpecificMessage {
                source: source@,
            },
            Subscription::SpecificMessageTag { tag } => SubV::SpecificMessageTag { tag: tag@ },
        }
    }
}

impl Subscription {
    /// Structural equality of two channel selectors.
    pub fn matches(&self, other: &Subscription) -> (r: bool)
        ensures
            r == (self@ == other@),
    {
        match (self, other) {
            (Subscription::Everything, Subscription::Everything) => true,
            (Subscription::AllKeyPresses, Subscription::AllKeyPresses) => true,
            (Subscription::AllMouseEvents, Subscription::AllMouseEvents) => true,
            (Subscription::AllMessages, Subscription::AllMessages) => true,
            (Subscription::ScreenResize, Subscription::ScreenResize) => true,
            (Subscription::Focused, Subscription::Focused) => true,
            (Subscription::Unfocused, Subscription::Unfocused) => true,
            (
                Subscription::SpecificKeyPress { key: a },
                Subscription::SpecificKeyPress { key: b },
            ) => a.code == b.code && a.modifier == b.modifier,
            (
                Subscription::SpecificKeyCode { code: a },
                Subscription::SpecificKeyCode { code: b },
            ) => a == b,
            (
                Subscription::SpecificKeyModifier { modifier: a },
                Subscription::SpecificKeyModifier { modifier: b },
            ) => a == b,
            (
                Subscription::SpecificMouseEvent { mouse: a },
                Subscription::SpecificMouseEvent { mouse: b },
            ) => a == b,
            (
                Subscription::SpecificMessage { source: a },
                Subscription::SpecificMessage { source: b },
            ) => a.matches(b),
            (
                Subscription::SpecificMessageTag { tag: a },
                Subscription::SpecificMessageTag { tag: b },
            ) => bytes_eq(a, b),
            _ => false,
        }
    }

    /// A copy of a channel selector, with the same mathematical value.
    pub fn dup(&self) -> (r: Subscription)
        ensures
            r@ == self@,
    {
        match self {
            Subscription::Everything => Subscription::Everything,
            Subscription::AllKeyPresses => Subscription::AllKeyPresses,
            Subscription::AllMouseEvents => Subscription::AllMouseEvents,
            Subscription::AllMessages => Subscription::AllMessages,
            Subscription::ScreenResize => Subscription::ScreenResize,
            Subscription::Focused => Subscription::Focused,
            Subscription::Unfocused => Subscription::Unfocused,
            Subscription::SpecificKeyPress { key } => Subscription::SpecificKeyPress {
                key: *key,
            },
            Subscription::SpecificKeyCode { code } => Subscription::SpecificKeyCode {
                code: *code,
            },
            Subscription::SpecificKeyModifier { modifier } => Subscription::SpecificKeyModifier {
                modifier: *modifier,
            },
            Subscription::SpecificMouseEvent { mouse } => Subscription::SpecificMouseEvent {
                mouse: *mouse,
            },
            Subscription::SpecificMessage { source } => Subscription::SpecificMessage {
                source: source.clone(),
            },
            Subscription::SpecificMessageTag { tag } => Subscription::SpecificMessageTag {
                tag: dup_bytes(tag),
            },
        }
    }
}

} // verus!
