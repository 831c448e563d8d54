//! Keys: the identity of a widget across regenerations.

use vstd::prelude::*;

verus! {

/// An identity token chosen by the application.
#[derive(Clone, Copy, Debug, PartialEq, Eq, Hash, Structural)]
pub struct Key {
    pub id: u64,
}

impl Key {
    /// The key with the token `id`.
    pub fn new(id: u64) -> (r: Self)
        ensures
            r.id == id,
    {
        Key { id }
    }
}

/// The value a keyed widget had before the regeneration, if it had a
/// predecessor, and the value it has now.
#[derive(Clone, Copy, Debug, PartialEq, Eq, Structural)]
pub struct KeyChange {
    pub before: Option<u64>,
    pub after: u64,
}

/// The key of a widget, its value, and what key matching recorded of it: the
/// value of the widget with the same key that it replaced, and whether a
/// widget with the same key replaced it in turn.
#[derive(Clone, Copy, Debug, PartialEq, Eq, Structural)]
pub struct KeyWidget {
    pub key: Key,
    pub value: u64,
    pub before_value: Option<u64>,
    pub has_successor: bool,
}

impl KeyWidget {
    /// A keyed widget that no matching has seen yet.
    pub fn new(key: Key, value: u64) -> (r: Self)
        ensures
            r == (KeyWidget { key, value, before_value: None, has_successor: false }),
    {
        KeyWidget { key, value, before_value: None, has_successor: false }
    }

    /// No widget with this key preceded this one.
    pub fn is_enter(&self) -> (r: bool)
        ensures
            r == self.before_value.is_none(),
    {
        self.before_value.is_none()
    }

    /// A widget with this key preceded this one, with another value.
    pub fn is_changed(&self) -> (r: bool)
        ensures
            r == (self.before_value.is_some() && self.before_value != Some(self.value)),
    {
        match self.before_value {
            Some(v) => v != self.value,
            None => false,
        }
    }

    /// No widget with this key took the place of this one: when it is
    /// disposed, it leaves for good.
    pub fn is_leave(&self) -> (r: bool)
        ensures
            r == !self.has_successor,
    {
        !self.has_successor
    }

    /// The value before and after the regeneration that built this widget.
    pub fn get_change(&self) -> (r: KeyChange)
        ensures
            r == (KeyChange { before: self.before_value, after: self.value }),
    {
        KeyChange { before: self.before_value, after: self.value }
    }

    /// This widget takes the place of `prev`, a widget with the same key.
    pub fn record_prev_key_widget(&mut self, prev: &KeyWidget)
        ensures
            *final(self) == (KeyWidget { before_value: Some(prev.value), ..*old(self) }),
    {
        self.before_value = Some(prev.value);
    }

    /// A widget with the same key takes the place of this one.
    pub fn record_next_key_widget(&mut self)
        ensures
            *final(self) == (KeyWidget { has_successor: true, ..*old(self) }),
    {
        self.has_successor = true;
    }
}

} // verus!
