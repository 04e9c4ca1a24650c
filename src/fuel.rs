//! Fuel for launching modules: each mass needs a third of itself, less two,
//! and the fuel needs fuel of its own in turn.
use vstd::prelude::*;

verus! {

/// The fuel a mass needs on its own: `mass / 3 - 2`, and never below zero.
pub open spec fn fuel_for(mass: nat) -> nat {
    if mass / 3 >= 2 {
        (mass / 3 - 2) as nat
    } else {
        0
    }
}

/// `fuel` plus the fuel it needs, and the fuel that needs, and so on.
pub open spec fn fuel_with_fuel(fuel: nat) -> nat
    decreases fuel,
{
    if fuel == 0 {
        0
    } else {
        fuel + fuel_with_fuel(fuel_for(fuel))
    }
}

proof fn lemma_fuel_with_fuel_bound(fuel: nat)
    ensures
        2 * fuel_with_fuel(fuel) <= 3 * fuel,
    decreases fuel,
{
    if fuel > 0 {
        lemma_fuel_with_fuel_bound(fuel_for(fuel));
    }
}

fn mass_to_fuel(mass: u64) -> (r: u64)
    ensures
        r == fuel_for(mass as nat),
{
    (mass / 3).saturating_sub(2)
}

/// A spacecraft module of a given mass.
#[derive(Clone, Copy, Debug)]
pub struct Module {
    pub mass: u64,
}

impl Module {
    /// The fuel for the module's mass alone.
    pub fn launch_fuel(self) -> (r: u64)
        ensures
            r == fuel_for(self.mass as nat),
    {
        mass_to_fuel(self.mass)
    }

    /// The fuel for the module's mass, with the fuel that fuel needs.
    pub fn total_fuel(self) -> (r: u64)
        ensures
            r == fuel_with_fuel(fuel_for(self.mass as nat)),
    {
        let first = self.launch_fuel();
        proof {
            lemma_fuel_with_fuel_bound(first as nat);
        }
        let mut fuel = first;
        let mut sum: u64 = 0;
        while fuel > 0
            invariant
                sum + fuel_with_fuel(fuel as nat) == fuel_with_fuel(first as nat),
                2 * fuel_with_fuel(first as nat) <= 3 * first,
                first <= u64::MAX / 3,
            decreases fuel,
        {
            sum = sum + fuel;
            fuel = mass_to_fuel(fuel);
        }
        sum
    }
}

} // verus!
