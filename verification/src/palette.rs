//! Swatch palettes and what the palette file keeps of them.
//!
//! Built-in palettes live in code; only user-created or imported palettes
//! are written to the palette file, and everything read back from it is a
//! user palette.

use vstd::prelude::*;

verus! {

/// A named list of swatch colors.
#[derive(Clone)]
pub struct Palette {
    pub name: String,
    pub colors: Vec<[u8; 4]>,
    /// Shipped with the editor (never written to the palette file).
    pub builtin: bool,
}

/// One palette as the palette file stores it.
pub struct StoredPalette {
    pub name: String,
    pub colors: Vec<[u8; 4]>,
}

/// Copy of a color list, element by element.
fn copy_colors(v: &Vec<[u8; 4]>) -> (r: Vec<[u8; 4]>)
    ensures
        r@ == v@,
{
    let mut r: Vec<[u8; 4]> = Vec::new();
    let mut i: usize = 0;
    while i < v.len()
        invariant
            i <= v.len(),
            r@ == v@.take(i as int),
        decreases v.len() - i,
    {
        let c = v[i];
        r.push(c);
        proof {
            assert(v@.take(i + 1) =~= v@.take(i as int).push(c));
        }
        i = i + 1;
    }
    proof {
        assert(v@.take(v@.len() as int) =~= v@);
    }
    r
}

/// The palettes of `ps` that the user made, in order.
pub open spec fn user_palettes(ps: Seq<Palette>) -> Seq<Palette> {
    ps.filter(|p: Palette| !p.builtin)
}

/// `stored` holds the user palettes of `ps`, in order, each with its name
/// and colors.
pub open spec fn stores(ps: Seq<Palette>, stored: Seq<StoredPalette>) -> bool {
    &&& stored.len() == user_palettes(ps).len()
    &&& forall|i: int|
        0 <= i < stored.len() ==> {
            &&& #[trigger] stored[i].name@ == user_palettes(ps)[i].name@
            &&& stored[i].colors@ == user_palettes(ps)[i].colors@
        }
}

/// `loaded` holds each of `stored`, in order, as a user palette.
pub open spec fn loads(stored: Seq<StoredPalette>, loaded: Seq<Palette>) -> bool {
    &&& loaded.len() == stored.len()
    &&& forall|i: int|
        0 <= i < loaded.len() ==> {
            &&& #[trigger] loaded[i].name@ == stored[i].name@
            &&& loaded[i].colors@ == stored[i].colors@
            &&& !loaded[i].builtin
        }
}

/// Saving then loading gives back exactly the user palettes, names and
/// colors unchanged; built-in palettes are left out.
pub proof fn law_palettes_roundtrip(ps: Seq<Palette>, stored: Seq<StoredPalette>, loaded: Seq<Palette>)
    requires
        stores(ps, stored),
        loads(stored, loaded),
    ensures
        loaded.len() == user_palettes(ps).len(),
        forall|i: int|
            0 <= i < loaded.len() ==> {
                &&& #[trigger] loaded[i].name@ == user_palettes(ps)[i].name@
                &&& loaded[i].colors@ == user_palettes(ps)[i].colors@
                &&& !loaded[i].builtin
            },
{
    assert forall|i: int| 0 <= i < loaded.len() implies {
        &&& #[trigger] loaded[i].name@ == user_palettes(ps)[i].name@
        &&& loaded[i].colors@ == user_palettes(ps)[i].colors@
        &&& !loaded[i].builtin
    } by {
        assert(loaded[i].name@ == stored[i].name@);
        assert(stored[i].name@ == user_palettes(ps)[i].name@);
    }
}

/// What the palette file holds for `palettes`: the user palettes, in order,
/// each with its name and colors. Built-in palettes are never stored.
pub fn save(palettes: &[Palette]) -> (r: Vec<StoredPalette>)
    ensures
        stores(palettes@, r@),
{
    let ghost keep = |p: Palette| !p.builtin;
    let mut r: Vec<StoredPalette> = Vec::new();
    let mut i: usize = 0;
    while i < palettes.len()
        invariant
            i <= palettes.len(),
            keep == (|p: Palette| !p.builtin),
            r@.len() == palettes@.take(i as int).filter(keep).len(),
            forall|j: int|
                0 <= j < r@.len() ==> {
                    &&& #[trigger] r@[j].name@ == palettes@.take(i as int).filter(keep)[j].name@
                    &&& r@[j].colors@ == palettes@.take(i as int).filter(keep)[j].colors@
                },
        decreases palettes.len() - i,
    {
        let p = &palettes[i];
        proof {
            assert(palettes@.take(i + 1) =~= palettes@.take(i as int).push(palettes@[i as int]));
            palettes@.take(i as int).lemma_filter_push(palettes@[i as int], keep);
        }
        if !p.builtin {
            let name = p.name.clone();
            let colors = copy_colors(&p.colors);
            r.push(StoredPalette { name, colors });
        }
        i = i + 1;
    }
    proof {
        assert(palettes@.take(palettes@.len() as int) =~= palettes@);
        assert(keep =~= (|p: Palette| !p.builtin));
        assert(palettes@.filter(keep) == user_palettes(palettes@));
        let u = user_palettes(palettes@);
        assert(palettes@.take(i as int).filter(keep) == u);
        assert forall|j: int| 0 <= j < r@.len() implies #[trigger] r@[j].name@ == u[j].name@
            && r@[j].colors@ == u[j].colors@ by {
            assert(r@[j].name@ == palettes@.take(i as int).filter(keep)[j].name@);
        }
    }
    r
}

/// The palettes a palette file yields, given its parsed contents (`None`
/// when the file is missing or does not parse): each stored palette, in
/// order, as a user palette. A missing or unreadable file yields none.
pub fn load(stored: Option<Vec<StoredPalette>>) -> (r: Vec<Palette>)
    ensures
        stored is None ==> r@.len() == 0,
        stored matches Some(v) ==> loads(v@, r@),
{
    let mut r: Vec<Palette> = Vec::new();
    match stored {
        None => r,
        Some(v) => {
            let ghost v0 = v@;
            let mut v = v;
            let mut rest: Vec<StoredPalette> = Vec::new();
            // Take the entries off the back, then lay them out front to back.
            while v.len() > 0
                invariant
                    v@.len() + rest@.len() == v0.len(),
                    v@ == v0.take(v@.len() as int),
                    forall|j: int|
                        0 <= j < rest@.len() ==> #[trigger] rest@[j] == v0[v0.len() - 1 - j],
                decreases v.len(),
            {
                let s = v.pop().unwrap();
                proof {
                    assert(v@ =~= v0.take(v@.len() as int));
                }
                rest.push(s);
            }
            while rest.len() > 0
                invariant
                    r@.len() + rest@.len() == v0.len(),
                    forall|j: int|
                        0 <= j < rest@.len() ==> #[trigger] rest@[j] == v0[v0.len() - 1 - j],
                    forall|i: int|
                        0 <= i < r@.len() ==> {
                            &&& #[trigger] r@[i].name@ == v0[i].name@
                            &&& r@[i].colors@ == v0[i].colors@
                            &&& !r@[i].builtin
                        },
                decreases rest.len(),
            {
                let s = rest.pop().unwrap();
                proof {
                    assert(s == v0[r@.len() as int]);
                }
                r.push(Palette { name: s.name, colors: s.colors, builtin: false });
            }
            r
        },
    }
}

} // verus!
