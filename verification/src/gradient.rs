//! The gradients of colour that a scale of levels can have.
use vstd::prelude::*;
use vstd::string::*;

verus! {

/// A gradient of colour.
#[derive(Clone, Copy, Debug, PartialEq, Eq, Structural)]
pub enum Palette {
    /// The usual colours, which are worked out.
    Sox,
    Viridis,
    Magma,
    Inferno,
    Plasma,
    Grayscale,
    Green,
    Amber,
}

/// The colours of a gradient that is given by a table.
pub const GRADIENT_LEN: i32 = 256;

/// The bytes of the tables of all gradients but the usual one.
pub const GRADIENTS_BYTES: usize = 5376;

impl Palette {
    /// The place of a gradient among all of them.
    pub open spec fn place(self) -> int {
        match self {
            Palette::Sox => 0,
            Palette::Viridis => 1,
            Palette::Magma => 2,
            Palette::Inferno => 3,
            Palette::Plasma => 4,
            Palette::Grayscale => 5,
            Palette::Green => 6,
            Palette::Amber => 7,
        }
    }

    /// The name of a gradient.
    pub open spec fn called(self) -> Seq<char> {
        match self {
            Palette::Sox => "sox"@,
            Palette::Viridis => "viridis"@,
            Palette::Magma => "magma"@,
            Palette::Inferno => "inferno"@,
            Palette::Plasma => "plasma"@,
            Palette::Grayscale => "grayscale"@,
            Palette::Green => "green"@,
            Palette::Amber => "amber"@,
        }
    }

    /// The place of a gradient among all of them.
    pub fn index(self) -> (n: usize)
        ensures
            n == self.place(),
            n < 8,
    {
        match self {
            Palette::Sox => 0,
            Palette::Viridis => 1,
            Palette::Magma => 2,
            Palette::Inferno => 3,
            Palette::Plasma => 4,
            Palette::Grayscale => 5,
            Palette::Green => 6,
            Palette::Amber => 7,
        }
    }

    /// The name of a gradient.
    pub fn name(self) -> (s: &'static str)
        ensures
            s@ == self.called(),
    {
        match self {
            Palette::Sox => "sox",
            Palette::Viridis => "viridis",
            Palette::Magma => "magma",
            Palette::Inferno => "inferno",
            Palette::Plasma => "plasma",
            Palette::Grayscale => "grayscale",
            Palette::Green => "green",
            Palette::Amber => "amber",
        }
    }
}

/// The gradient after `current`, and after the last one the first.
pub fn next_palette(current: Palette) -> (next: Palette)
    ensures
        next.place() == (current.place() + 1) % 8,
        next == palette_after(current, 1),
{
    match current {
        Palette::Sox => Palette::Viridis,
        Palette::Viridis => Palette::Magma,
        Palette::Magma => Palette::Inferno,
        Palette::Inferno => Palette::Plasma,
        Palette::Plasma => Palette::Grayscale,
        Palette::Grayscale => Palette::Green,
        Palette::Green => Palette::Amber,
        Palette::Amber => Palette::Sox,
    }
}

/// Names the gradient of a place.
pub open spec fn palette_at(place: int) -> Palette {
    if place == 0 {
        Palette::Sox
    } else if place == 1 {
        Palette::Viridis
    } else if place == 2 {
        Palette::Magma
    } else if place == 3 {
        Palette::Inferno
    } else if place == 4 {
        Palette::Plasma
    } else if place == 5 {
        Palette::Grayscale
    } else if place == 6 {
        Palette::Green
    } else {
        Palette::Amber
    }
}

/// The gradient `steps` after another one.
pub open spec fn palette_after(p: Palette, steps: nat) -> Palette {
    palette_at((p.place() + steps) % 8)
}

/// The gradient of a name, if there is one.
pub open spec fn palette_named(name: Seq<char>) -> Option<Palette> {
    if name == "sox"@ {
        Some(Palette::Sox)
    } else if name == "viridis"@ {
        Some(Palette::Viridis)
    } else if name == "magma"@ {
        Some(Palette::Magma)
    } else if name == "inferno"@ {
        Some(Palette::Inferno)
    } else if name == "plasma"@ {
        Some(Palette::Plasma)
    } else if name == "grayscale"@ {
        Some(Palette::Grayscale)
    } else if name == "green"@ {
        Some(Palette::Green)
    } else if name == "amber"@ {
        Some(Palette::Amber)
    } else {
        None
    }
}

/// The gradient of a name, if there is one.
pub fn named_palette(name: &str) -> (p: Option<Palette>)
    ensures
        p == palette_named(name@),
{
    let name = name.to_string();
    if name == "sox".to_string() {
        Some(Palette::Sox)
    } else if name == "viridis".to_string() {
        Some(Palette::Viridis)
    } else if name == "magma".to_string() {
        Some(Palette::Magma)
    } else if name == "inferno".to_string() {
        Some(Palette::Inferno)
    } else if name == "plasma".to_string() {
        Some(Palette::Plasma)
    } else if name == "grayscale".to_string() {
        Some(Palette::Grayscale)
    } else if name == "green".to_string() {
        Some(Palette::Green)
    } else if name == "amber".to_string() {
        Some(Palette::Amber)
    } else {
        None
    }
}

/// Every gradient is found by its name, and by no other.
pub proof fn law_palettes_go_by_their_names(p: Palette, name: Seq<char>)
    ensures
        palette_named(name) == Some(p) <==> name == p.called(),
{
    reveal_strlit("sox");
    reveal_strlit("viridis");
    reveal_strlit("magma");
    reveal_strlit("inferno");
    reveal_strlit("plasma");
    reveal_strlit("grayscale");
    reveal_strlit("green");
    reveal_strlit("amber");
    // the names are told apart by their lengths, and else by their first letters
    assert("sox"@.len() == 3 && "plasma"@.len() == 6 && "grayscale"@.len() == 9);
    assert("viridis"@.len() == 7 && "inferno"@.len() == 7);
    assert("viridis"@[0] == 'v' && "inferno"@[0] == 'i');
    assert("magma"@.len() == 5 && "green"@.len() == 5 && "amber"@.len() == 5);
    assert("magma"@[0] == 'm' && "green"@[0] == 'g' && "amber"@[0] == 'a');
    assert("viridis"@ != "inferno"@);
    assert("magma"@ != "green"@ && "magma"@ != "amber"@ && "green"@ != "amber"@);
}

/// Going on from a gradient shows every other one, and after eight steps it is back.
pub proof fn law_every_palette_comes_round(p: Palette, q: Palette)
    ensures
        palette_after(p, 8) == p,
        exists|steps: nat| steps < 8 && #[trigger] palette_after(p, steps) == q,
{
    let steps = ((q.place() - p.place() + 8) % 8) as nat;
    assert(palette_after(p, steps) == q);
}

} // verus!
