use vstd::prelude::*;

verus! {

/// Identifies a resource: a single process-wide instance of its type,
/// created with its type-defined default at registration.
pub trait Resource: Sized {
    /// The id the resource is registered under in the world.
    fn id() -> String;

    /// The instance registration creates.
    fn new() -> Self;
}

/// A key as the core models terminal input: the key itself and a modifier
/// bitmask. What the terminal reported is translated into this by the
/// surrounding application; the core's logic only ever reads these plain
/// values.
#[derive(Clone, Copy, PartialEq, Eq, Structural, Debug)]
pub enum Key {
    Null,
    Char(char),
    Enter,
    Escape,
    Backspace,
    Tab,
    Up,
    Down,
    Left,
    Right,
    Other(u32),
}

/// A key press with its modifier bits.
#[derive(Clone, Copy, PartialEq, Eq, Structural, Debug)]
pub struct InputKey {
    pub code: Key,
    pub modifiers: u8,
}

impl InputKey {
    /// The value meaning "no input this frame".
    pub fn null() -> (r: InputKey)
        ensures
            r == (InputKey { code: Key::Null, modifiers: 0u8 }),
    {
        InputKey { code: Key::Null, modifiers: 0 }
    }
}

/// The command-line input resource: stores the key the terminal reported
/// this frame, or the null key when nothing was pressed.
#[derive(Clone, Copy, PartialEq, Eq, Structural, Debug)]
pub struct CMDInput {
    key: InputKey,
}

impl CMDInput {
    /// The stored key.
    pub closed spec fn spec_key(self) -> InputKey {
        self.key
    }

    /// Get the current key.
    pub fn get(&self) -> (r: InputKey)
        ensures
            r == self.spec_key(),
    {
        self.key
    }

    /// Set the current key.
    pub fn set(&mut self, key: InputKey)
        ensures
            final(self).spec_key() == key,
    {
        self.key = key;
    }

    /// Set the key back to null.
    pub fn reset(&mut self)
        ensures
            final(self).spec_key() == (InputKey { code: Key::Null, modifiers: 0u8 }),
    {
        self.key = InputKey::null();
    }
}

impl Resource for CMDInput {
    fn id() -> String {
        "CMDInputData".to_owned()
    }

    fn new() -> (r: Self)
        ensures
            r.spec_key() == (InputKey { code: Key::Null, modifiers: 0u8 }),
    {
        CMDInput { key: InputKey::null() }
    }
}

/// Delta-time resource: milliseconds elapsed since the last frame and
/// since the last logic run. Only the loop driver updates the inner
/// values; systems read them.
#[derive(Clone, Copy, PartialEq, Eq, Structural, Debug)]
pub struct DeltaT {
    delta_frame: u128,
    delta_logic: u128,
}

impl DeltaT {
    /// Milliseconds elapsed since the last frame.
    pub closed spec fn spec_delta_frame(self) -> u128 {
        self.delta_frame
    }

    /// Milliseconds elapsed since the last logic run.
    pub closed spec fn spec_delta_logic(self) -> u128 {
        self.delta_logic
    }

    /// Get milliseconds elapsed since the last frame.
    pub fn delta_frame(&self) -> (r: u128)
        ensures
            r == self.spec_delta_frame(),
    {
        self.delta_frame
    }

    /// Get milliseconds elapsed since the last time logic ran.
    pub fn delta_logic(&self) -> (r: u128)
        ensures
            r == self.spec_delta_logic(),
    {
        self.delta_logic
    }

    /// Record the measured deltas for the frame that just ended.
    pub fn record(&mut self, delta_frame: u128, delta_logic: u128)
        ensures
            final(self).spec_delta_frame() == delta_frame,
            final(self).spec_delta_logic() == delta_logic,
    {
        self.delta_frame = delta_frame;
        self.delta_logic = delta_logic;
    }
}

impl Resource for DeltaT {
    fn id() -> String {
        "DeltaT".to_owned()
    }

    fn new() -> (r: Self)
        ensures
            r.spec_delta_frame() == 0,
            r.spec_delta_logic() == 0,
    {
        DeltaT { delta_frame: 0, delta_logic: 0 }
    }
}

/// The resource value type the core registers its worlds with: one
/// variant per core resource kind.
pub enum CoreRes {
    Input(CMDInput),
    Delta(DeltaT),
}

} // verus!
