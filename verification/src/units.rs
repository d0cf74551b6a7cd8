//! The units a quantity may carry, and which conversions between them exist.
//!
//! A linear unit is a multiple of its dimension's base unit (metre, gram,
//! second); the factor is kept as the text of its decimal literal, which the
//! arithmetic turns into a number. Temperatures convert through kelvin.
use crate::chars::same_text;
use crate::lexer::concat3;
use vstd::prelude::*;

verus! {

#[derive(Clone, Copy, Debug, PartialEq, Eq, Structural)]
pub enum Dimension {
    Length,
    Mass,
    Time,
    Temperature,
}

#[derive(Clone, Copy, Debug, PartialEq, Eq, Structural)]
pub enum TemperatureScale {
    C,
    F,
    K,
}

#[derive(Clone, Copy, Debug)]
pub enum UnitKind {
    Linear { factor_to_base: &'static str },
    Temperature(TemperatureScale),
}

#[derive(Clone, Copy, Debug)]
pub struct UnitDefinition {
    pub dimension: Dimension,
    pub kind: UnitKind,
}

/// What a unit is: its dimension and, for a linear unit, the text of its
/// factor to the base unit.
pub enum UnitKindView {
    Linear(Seq<char>),
    Temperature(TemperatureScale),
}

pub struct UnitView {
    pub dimension: Dimension,
    pub kind: UnitKindView,
}

impl View for UnitDefinition {
    type V = UnitView;

    open spec fn view(&self) -> UnitView {
        UnitView {
            dimension: self.dimension,
            kind: match self.kind {
                UnitKind::Linear { factor_to_base } => UnitKindView::Linear(factor_to_base@),
                UnitKind::Temperature(scale) => UnitKindView::Temperature(scale),
            },
        }
    }
}

pub open spec fn linear(dimension: Dimension, factor: Seq<char>) -> Option<UnitView> {
    Some(UnitView { dimension, kind: UnitKindView::Linear(factor) })
}

pub open spec fn temperature(scale: TemperatureScale) -> Option<UnitView> {
    Some(UnitView { dimension: Dimension::Temperature, kind: UnitKindView::Temperature(scale) })
}

/// The table of units.
pub open spec fn unit_of(u: Seq<char>) -> Option<UnitView> {
    if u == "mm"@ {
        linear(Dimension::Length, "0.001"@)
    } else if u == "cm"@ {
        linear(Dimension::Length, "0.01"@)
    } else if u == "m"@ {
        linear(Dimension::Length, "1.0"@)
    } else if u == "km"@ {
        linear(Dimension::Length, "1000.0"@)
    } else if u == "in"@ {
        linear(Dimension::Length, "0.0254"@)
    } else if u == "ft"@ {
        linear(Dimension::Length, "0.3048"@)
    } else if u == "yd"@ {
        linear(Dimension::Length, "0.9144"@)
    } else if u == "mi"@ {
        linear(Dimension::Length, "1609.344"@)
    } else if u == "g"@ {
        linear(Dimension::Mass, "1.0"@)
    } else if u == "kg"@ {
        linear(Dimension::Mass, "1000.0"@)
    } else if u == "oz"@ {
        linear(Dimension::Mass, "28.349523125"@)
    } else if u == "lb"@ {
        linear(Dimension::Mass, "453.59237"@)
    } else if u == "s"@ {
        linear(Dimension::Time, "1.0"@)
    } else if u == "min"@ {
        linear(Dimension::Time, "60.0"@)
    } else if u == "h"@ {
        linear(Dimension::Time, "3600.0"@)
    } else if u == "C"@ {
        temperature(TemperatureScale::C)
    } else if u == "F"@ {
        temperature(TemperatureScale::F)
    } else if u == "K"@ {
        temperature(TemperatureScale::K)
    } else {
        None
    }
}

fn linear_unit(dimension: Dimension, factor_to_base: &'static str) -> (d: Option<UnitDefinition>)
    ensures
        d matches Some(def) && def@ == linear(dimension, factor_to_base@)->0,
{
    Some(UnitDefinition { dimension, kind: UnitKind::Linear { factor_to_base } })
}

fn temperature_unit(scale: TemperatureScale) -> (d: Option<UnitDefinition>)
    ensures
        d matches Some(def) && def@ == temperature(scale)->0,
{
    Some(UnitDefinition { dimension: Dimension::Temperature, kind: UnitKind::Temperature(scale) })
}

/// The definition of the unit named `unit`, if it is one.
pub fn unit_definition(unit: &str) -> (d: Option<UnitDefinition>)
    ensures
        match d {
            Some(def) => unit_of(unit@) == Some(def@),
            None => unit_of(unit@) is None,
        },
{
    if same_text(unit, "mm") {
        linear_unit(Dimension::Length, "0.001")
    } else if same_text(unit, "cm") {
        linear_unit(Dimension::Length, "0.01")
    } else if same_text(unit, "m") {
        linear_unit(Dimension::Length, "1.0")
    } else if same_text(unit, "km") {
        linear_unit(Dimension::Length, "1000.0")
    } else if same_text(unit, "in") {
        linear_unit(Dimension::Length, "0.0254")
    } else if same_text(unit, "ft") {
        linear_unit(Dimension::Length, "0.3048")
    } else if same_text(unit, "yd") {
        linear_unit(Dimension::Length, "0.9144")
    } else if same_text(unit, "mi") {
        linear_unit(Dimension::Length, "1609.344")
    } else if same_text(unit, "g") {
        linear_unit(Dimension::Mass, "1.0")
    } else if same_text(unit, "kg") {
        linear_unit(Dimension::Mass, "1000.0")
    } else if same_text(unit, "oz") {
        linear_unit(Dimension::Mass, "28.349523125")
    } else if same_text(unit, "lb") {
        linear_unit(Dimension::Mass, "453.59237")
    } else if same_text(unit, "s") {
        linear_unit(Dimension::Time, "1.0")
    } else if same_text(unit, "min") {
        linear_unit(Dimension::Time, "60.0")
    } else if same_text(unit, "h") {
        linear_unit(Dimension::Time, "3600.0")
    } else if same_text(unit, "C") {
        temperature_unit(TemperatureScale::C)
    } else if same_text(unit, "F") {
        temperature_unit(TemperatureScale::F)
    } else if same_text(unit, "K") {
        temperature_unit(TemperatureScale::K)
    } else {
        None
    }
}

pub open spec fn unknown_unit_message(unit: Seq<char>) -> Seq<char> {
    "unknown unit `"@ + unit + "`"@
}

pub open spec fn incompatible_message(from: Seq<char>, to: Seq<char>) -> Seq<char> {
    "incompatible conversion from `"@ + from + "` to `"@ + to + "`"@
}

/// The two units of a conversion from `from` to `to`, or why there is none.
pub open spec fn conversion_of(from: Seq<char>, to: Seq<char>) -> Result<(UnitView, UnitView), Seq<char>> {
    match (unit_of(from), unit_of(to)) {
        (None, _) => Err(unknown_unit_message(from)),
        (Some(_), None) => Err(unknown_unit_message(to)),
        (Some(f), Some(t)) => if f.dimension != t.dimension {
            Err(incompatible_message(from, to))
        } else {
            match (f.kind, t.kind) {
                (UnitKindView::Linear(_), UnitKindView::Linear(_)) => Ok((f, t)),
                (UnitKindView::Temperature(_), UnitKindView::Temperature(_)) => Ok((f, t)),
                _ => Err(incompatible_message(from, to)),
            }
        },
    }
}

/// Looks up both units of a conversion and checks that it exists.
pub fn check_conversion(from: &str, to: &str) -> (r: Result<(UnitDefinition, UnitDefinition), String>)
    ensures
        match r {
            Ok((f, t)) => conversion_of(from@, to@) == Ok::<(UnitView, UnitView), Seq<char>>(
                (f@, t@),
            ),
            Err(message) => conversion_of(from@, to@) == Err::<(UnitView, UnitView), Seq<char>>(
                message@,
            ),
        },
{
    let from_def = match unit_definition(from) {
        Some(def) => def,
        None => {
            return Err(concat3("unknown unit `", from, "`"));
        },
    };
    let to_def = match unit_definition(to) {
        Some(def) => def,
        None => {
            return Err(concat3("unknown unit `", to, "`"));
        },
    };
    if from_def.dimension != to_def.dimension {
        return Err(incompatible(from, to));
    }
    match (from_def.kind, to_def.kind) {
        (UnitKind::Linear { .. }, UnitKind::Linear { .. }) => Ok((from_def, to_def)),
        (UnitKind::Temperature(_), UnitKind::Temperature(_)) => Ok((from_def, to_def)),
        _ => Err(incompatible(from, to)),
    }
}

fn incompatible(from: &str, to: &str) -> (message: String)
    ensures
        message@ == incompatible_message(from@, to@),
{
    let mut message = concat3("incompatible conversion from `", from, "` to `");
    message.append(to);
    message.append("`");
    message
}

/// A unit is a temperature exactly when its dimension is temperature.
proof fn lemma_temperature_kind(u: Seq<char>)
    ensures
        unit_of(u) matches Some(v) ==> (v.dimension == Dimension::Temperature <==> v.kind is Temperature),
{
}

/// A conversion between two known units exists exactly when they measure
/// the same dimension; otherwise it is reported as incompatible.
pub proof fn law_conversion_same_dimension(from: Seq<char>, to: Seq<char>)
    requires
        unit_of(from) is Some,
        unit_of(to) is Some,
    ensures
        conversion_of(from, to) is Ok <==> unit_of(from)->0.dimension == unit_of(to)->0.dimension,
        conversion_of(from, to) is Err ==> conversion_of(from, to) == Err::<(UnitView, UnitView), Seq<char>>(
            incompatible_message(from, to),
        ),
{
    lemma_temperature_kind(from);
    lemma_temperature_kind(to);
}

} // verus!
