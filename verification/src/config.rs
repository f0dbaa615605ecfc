use vstd::prelude::*;

verus! {

/// One option of a choice configuration: a value with a display name.
#[derive(Clone)]
pub struct Choice<C: Clone> {
    pub value: C,
    pub name: String,
}

impl<C: Clone> Choice<C> {
    pub fn new(value: C, name: &str) -> (out: Choice<C>)
        ensures
            out.value == value,
            out.name@ == name@,
    {
        Choice { value, name: name.to_string() }
    }
}

/// An integer setting with optional bounds.
#[derive(Clone, Copy)]
pub struct IntValue {
    pub value: isize,
    pub min: Option<isize>,
    pub max: Option<isize>,
}

/// `val` capped at `max` and then raised to `min`, where they are given.
pub open spec fn bounded(min: Option<isize>, max: Option<isize>, val: isize) -> isize {
    let capped = match max {
        Some(m) => if val <= m { val } else { m },
        None => val,
    };
    match min {
        Some(m) => if capped >= m { capped } else { m },
        None => capped,
    }
}

impl IntValue {
    /// Keeps a value within the bounds of this setting.
    pub fn bound(&self, val: isize) -> (out: isize)
        ensures
            out == bounded(self.min, self.max, val),
    {
        let mut val = val;
        if let Some(max) = self.max {
            val = if val <= max { val } else { max };
        }
        if let Some(min) = self.min {
            val = if val >= min { val } else { min };
        }
        val
    }

    /// The setting after its value is set: the new value kept within the bounds.
    pub fn with_value(&self, value: isize) -> (out: IntValue)
        ensures
            out.value == bounded(self.min, self.max, value),
            out.min == self.min,
            out.max == self.max,
    {
        IntValue { value: self.bound(value), min: self.min, max: self.max }
    }

    /// The setting after its minimum is set: the current value kept within the new bounds.
    pub fn with_min(&self, min: Option<isize>) -> (out: IntValue)
        ensures
            out.value == bounded(min, self.max, self.value),
            out.min == min,
            out.max == self.max,
    {
        let next = IntValue { value: self.value, min, max: self.max };
        IntValue { value: next.bound(self.value), min, max: self.max }
    }

    /// The setting after its maximum is set: the current value kept within the new bounds.
    pub fn with_max(&self, max: Option<isize>) -> (out: IntValue)
        ensures
            out.value == bounded(self.min, max, self.value),
            out.min == self.min,
            out.max == max,
    {
        let next = IntValue { value: self.value, min: self.min, max };
        IntValue { value: next.bound(self.value), min: self.min, max }
    }
}

/// Bounding gives a value within the bounds (where the minimum is not above the maximum),
/// leaves a value within them unchanged, and bounding twice is bounding once.
pub proof fn law_bound(min: Option<isize>, max: Option<isize>, val: isize)
    ensures
        (min is Some && max is Some && min->0 <= max->0) ==> min->0 <= bounded(min, max, val) <= max->0,
        min is Some ==> min->0 <= bounded(min, max, val),
        (min is Some && max is Some && min->0 <= max->0) || min is None ==> (max is Some ==> bounded(min, max, val) <= max->0),
        ((min is None || min->0 <= val) && (max is None || val <= max->0)) ==> bounded(min, max, val) == val,
        bounded(min, max, bounded(min, max, val)) == bounded(min, max, val),
{
}

/// The direction in which the children of a composite configuration are laid out.
#[derive(PartialEq, Eq, Structural, Clone, Copy)]
pub enum CompositeDirection {
    Vertical,
    Horizontal,
}

/// How a label is shown next to its configuration.
#[derive(Clone, Copy)]
pub enum LabelStyle {
    Inline,
    Above,
    Category,
}

/// When a panel opens by itself.
#[derive(Clone, Copy)]
pub enum AutoOpen {
    Never,
    Always,
    /// Open if the target panel is already present, which only adds a tab.
    IfExistingPanel,
}

/// Where a panel opens relative to the current one.
#[derive(Clone, Copy)]
pub enum OpenSide {
    In,
    Above,
    Right,
    Below,
    Left,
}

impl OpenSide {
    /// The name of the side as the panel layout knows it.
    pub fn name(self) -> (out: &'static str)
        ensures
            out@ == match self {
                OpenSide::In => "in"@,
                OpenSide::Above => "north"@,
                OpenSide::Right => "east"@,
                OpenSide::Below => "south"@,
                OpenSide::Left => "west"@,
            },
    {
        match self {
            OpenSide::In => "in",
            OpenSide::Above => "north",
            OpenSide::Right => "east",
            OpenSide::Below => "south",
            OpenSide::Left => "west",
        }
    }
}

/// A component that lays out other components.
#[derive(Clone, Copy)]
pub struct CompositeComponent {}

/// A readable number field.
pub struct FieldUSize {
    val: usize,
}

impl FieldUSize {
    /// The field holding `val`.
    pub fn with_value(val: usize) -> (out: FieldUSize)
        ensures
            out.get_spec() == val,
    {
        FieldUSize { val }
    }

    /// The value of the field.
    pub closed spec fn get_spec(&self) -> usize {
        self.val
    }

    pub fn get(&self) -> (out: usize)
        ensures
            out == self.get_spec(),
    {
        self.val
    }
}

/// Button data: the number of times the button was clicked.
pub struct Button {
    clicks: usize,
}

impl Button {
    /// The number of clicks so far.
    pub closed spec fn click_count(&self) -> usize {
        self.clicks
    }

    pub fn new() -> (out: Button)
        ensures
            out.click_count() == 0,
    {
        Button { clicks: 0 }
    }

    /// The number of clicks so far.
    pub fn clicks(&self) -> (out: usize)
        ensures
            out == self.click_count(),
    {
        self.clicks
    }
}

/// A listener that runs its closure when the button's clicks change.
pub struct ButtonListener<L>(pub L);

impl<L> ButtonListener<L> {
    pub fn new(listener: L) -> (out: ButtonListener<L>)
        ensures
            out.0 == listener,
    {
        ButtonListener(listener)
    }
}

} // verus!
