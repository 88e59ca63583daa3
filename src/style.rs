use vstd::prelude::*;

verus! {

/// Look of the window's background container.
pub struct Container;

/// Look of an ordinary button.
pub struct Button;

/// Look of a button that removes something.
pub struct Clear;

/// Look of the raid picker.
pub struct PickList;

/// Look of the raid name input.
pub struct TextInput;

} // verus!
