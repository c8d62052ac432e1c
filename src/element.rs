use vstd::prelude::*;

verus! {

/// The physical form of an element, which decides how rules treat it as a neighbour.
#[derive(Clone, Copy, Debug, PartialEq, Eq, Hash, Structural)]
pub enum ElementForm {
    Solid,
    Liquid,
    Gas,
    Special,
}

/// The substance that occupies one cell of the grid.
#[derive(Clone, Copy, Debug, PartialEq, Eq, Hash, Structural)]
pub enum Element {
    Air,
    Sand,
    Water,
    Acid,
    Oil,
    Drain,
    Fire,
    Ash,
    Lava,
    Smoke,
    Life,
    Iron,
    Rust,
    Plant,
    Wood,
    Rock,
    Indestructible,
    WaterSource,
    AcidSource,
    OilSource,
    LavaSource,
    FireSource,
}

impl Element {
    pub open spec fn spec_form(self) -> ElementForm {
        match self {
            Element::Sand | Element::Ash | Element::Iron | Element::Rust | Element::Plant
            | Element::Wood | Element::Rock | Element::Indestructible => ElementForm::Solid,
            Element::Water | Element::Acid | Element::Oil | Element::Lava => ElementForm::Liquid,
            Element::Air | Element::Fire | Element::Smoke => ElementForm::Gas,
            _ => ElementForm::Special,
        }
    }

    /// The form of the element.
    #[verifier::when_used_as_spec(spec_form)]
    pub fn form(self) -> (r: ElementForm)
        ensures
            r == self.spec_form(),
    {
        match self {
            Element::Sand | Element::Ash | Element::Iron | Element::Rust | Element::Plant
            | Element::Wood | Element::Rock | Element::Indestructible => ElementForm::Solid,
            Element::Water | Element::Acid | Element::Oil | Element::Lava => ElementForm::Liquid,
            Element::Air | Element::Fire | Element::Smoke => ElementForm::Gas,
            _ => ElementForm::Special,
        }
    }

    pub open spec fn spec_strength(self) -> u8 {
        match self {
            Element::Sand => 4,
            Element::Acid => 8,
            Element::Oil => 4,
            Element::Fire => 32,
            Element::Ash => 2,
            Element::Lava => 128,
            Element::Smoke => 32,
            Element::Iron => 32,
            Element::Rust => 4,
            Element::Plant => 4,
            Element::Wood => 16,
            Element::Rock => 64,
            _ => 0,
        }
    }

    /// The strength a freshly placed cell of this element starts with.
    #[verifier::when_used_as_spec(spec_strength)]
    pub fn strength(self) -> (r: u8)
        ensures
            r == self.spec_strength(),
    {
        match self {
            Element::Sand => 4,
            Element::Acid => 8,
            Element::Oil => 4,
            Element::Fire => 32,
            Element::Ash => 2,
            Element::Lava => 128,
            Element::Smoke => 32,
            Element::Iron => 32,
            Element::Rust => 4,
            Element::Plant => 4,
            Element::Wood => 16,
            Element::Rock => 64,
            _ => 0,
        }
    }

    pub open spec fn spec_color_variance(self) -> u8 {
        match self {
            Element::Sand | Element::Wood | Element::Rock | Element::Rust | Element::Ash
            | Element::Plant | Element::Smoke => 10,
            Element::Water | Element::Acid | Element::Oil | Element::Iron => 5,
            Element::Lava | Element::Fire => 20,
            _ => 0,
        }
    }

    /// How much the colour of a fresh cell varies, in percent; zero keeps its variant.
    #[verifier::when_used_as_spec(spec_color_variance)]
    pub fn color_variance(self) -> (r: u8)
        ensures
            r == self.spec_color_variance(),
    {
        match self {
            Element::Sand | Element::Wood | Element::Rock | Element::Rust | Element::Ash
            | Element::Plant | Element::Smoke => 10,
            Element::Water | Element::Acid | Element::Oil | Element::Iron => 5,
            Element::Lava | Element::Fire => 20,
            _ => 0,
        }
    }

    pub open spec fn spec_burns(self) -> bool {
        self == Element::Wood || self == Element::Oil || self == Element::Plant
    }

    /// Whether fire and lava ignite this element.
    #[verifier::when_used_as_spec(spec_burns)]
    pub fn burns(self) -> (r: bool)
        ensures
            r == self.spec_burns(),
    {
        matches!(self, Element::Wood | Element::Oil | Element::Plant)
    }

    pub open spec fn spec_causes_rust(self) -> bool {
        self == Element::Water
    }

    /// Whether iron next to this element rusts.
    #[verifier::when_used_as_spec(spec_causes_rust)]
    pub fn causes_rust(self) -> (r: bool)
        ensures
            r == self.spec_causes_rust(),
    {
        matches!(self, Element::Water)
    }

    pub open spec fn spec_grows_plant(self) -> bool {
        self == Element::Water
    }

    /// Whether a plant next to this element grows into it.
    #[verifier::when_used_as_spec(spec_grows_plant)]
    pub fn grows_plant(self) -> (r: bool)
        ensures
            r == self.spec_grows_plant(),
    {
        matches!(self, Element::Water)
    }

    pub open spec fn spec_dissolves_in_acid(self) -> bool {
        match self {
            Element::Sand | Element::Ash | Element::Iron | Element::Rust | Element::Plant
            | Element::Wood | Element::Rock | Element::Life => true,
            _ => false,
        }
    }

    /// Whether acid eats this element away.
    #[verifier::when_used_as_spec(spec_dissolves_in_acid)]
    pub fn dissolves_in_acid(self) -> (r: bool)
        ensures
            r == self.spec_dissolves_in_acid(),
    {
        matches!(
            self,
            Element::Sand | Element::Ash | Element::Iron | Element::Rust | Element::Plant
                | Element::Wood | Element::Rock | Element::Life
        )
    }
}

} // verus!
