use vstd::prelude::*;
use crate::field::{ends_with, is_rle_name, rle_suffix};
use crate::flow::{next_phase, GameEvent, GameState};

verus! {

/// The name of the pattern file chosen from the menu.
pub struct CurrentFileName(pub String);

impl Default for CurrentFileName {
    fn default() -> (n: CurrentFileName)
        ensures
            n.0@ == Seq::<char>::empty(),
    {
        CurrentFileName(String::new())
    }
}

/// How the pointer deals with a menu button.
#[derive(Clone, Copy, PartialEq, Eq, Structural, Debug)]
pub enum Interaction {
    Pressed,
    Hovered,
    Untouched,
}

/// The colours of a menu label.
#[derive(Clone, Copy, PartialEq, Eq, Structural, Debug)]
pub enum LabelColor {
    Beige,
    Yellow,
}

/// What a menu button asks for.
#[derive(Clone, Copy, PartialEq, Eq, Structural, Debug)]
pub enum ButtonResponse {
    /// Move to this phase: the pattern was chosen.
    Start(GameState),
    /// Paint the label in this colour.
    Paint(LabelColor),
}

/// The menu's answer to a button with the label `label`: pressing it
/// chooses its pattern file and starts the simulation, hovering over it
/// paints the label yellow, leaving it paints the label beige.
pub fn interact_button(interaction: Interaction, label: &String, file_name: &mut CurrentFileName) -> (r: ButtonResponse)
    ensures
        interaction == Interaction::Pressed ==> final(file_name).0@ == label@ && r == ButtonResponse::Start(
            next_phase(GameState::Setup, GameEvent::PatternChosen).unwrap(),
        ),
        interaction == Interaction::Pressed ==> r == ButtonResponse::Start(GameState::Simulate),
        interaction == Interaction::Hovered ==> final(file_name).0@ == old(file_name).0@ && r
            == ButtonResponse::Paint(LabelColor::Yellow),
        interaction == Interaction::Untouched ==> final(file_name).0@ == old(file_name).0@ && r
            == ButtonResponse::Paint(LabelColor::Beige),
{
    match interaction {
        Interaction::Pressed => {
            file_name.0 = label.clone();
            ButtonResponse::Start(GameState::Simulate)
        },
        Interaction::Hovered => ButtonResponse::Paint(LabelColor::Yellow),
        Interaction::Untouched => ButtonResponse::Paint(LabelColor::Beige),
    }
}

/// The names of run-length encoded pattern files among `names`, in order.
pub open spec fn rle_names(names: Seq<Seq<char>>) -> Seq<Seq<char>> {
    names.filter(|n: Seq<char>| ends_with(n, rle_suffix()))
}

/// The file names among `names` that end with `.rle`, in their order.
pub fn pattern_files(names: Vec<String>) -> (out: Vec<String>)
    ensures
        out@.map_values(|s: String| s@) == rle_names(names@.map_values(|s: String| s@)),
{
    let ghost all = names@.map_values(|s: String| s@);
    let ghost keep = |n: Seq<char>| ends_with(n, rle_suffix());
    let mut out: Vec<String> = Vec::new();
    let mut k: usize = 0;
    assert(all.take(0) =~= Seq::<Seq<char>>::empty());
    while k < names.len()
        invariant
            0 <= k <= names@.len(),
            all == names@.map_values(|s: String| s@),
            keep == (|n: Seq<char>| ends_with(n, rle_suffix())),
            out@.map_values(|s: String| s@) == all.take(k as int).filter(keep),
        decreases names@.len() - k,
    {
        let name = &names[k];
        assert(name@ == all[k as int]);
        assert(all.take(k + 1) =~= all.take(k as int).push(all[k as int]));
        proof {
            all.take(k as int).lemma_filter_push(all[k as int], keep);
        }
        if is_rle_name(name.as_str()) {
            let ghost before = out@.map_values(|s: String| s@);
            out.push(name.clone());
            assert(out@.map_values(|s: String| s@) =~= before.push(name@));
        }
        k = k + 1;
    }
    assert(all.take(names@.len() as int) =~= all);
    out
}

/// A single name is listed exactly when its last four characters are
/// `.rle`, however long it is.
pub proof fn lemma_rle_name_listed(n: Seq<char>)
    ensures
        rle_names(seq![n]) == if n.len() >= 4 && n[n.len() - 4] == '.' && n[n.len() - 3] == 'r'
            && n[n.len() - 2] == 'l' && n[n.len() - 1] == 'e' {
            seq![n]
        } else {
            Seq::<Seq<char>>::empty()
        },
{
    reveal_with_fuel(Seq::<Seq<char>>::filter, 2);
    let e = n.len() >= 4 && n[n.len() - 4] == '.' && n[n.len() - 3] == 'r' && n[n.len() - 2] == 'l'
        && n[n.len() - 1] == 'e';
    if n.len() >= 4 {
        let t = n.skip(n.len() - 4);
        assert(t[0] == n[n.len() - 4] && t[1] == n[n.len() - 3] && t[2] == n[n.len() - 2] && t[3] == n[n.len() - 1]);
        if e {
            assert(t =~= rle_suffix());
        }
    }
    assert(seq![n].drop_last() =~= Seq::<Seq<char>>::empty());
    assert(ends_with(n, rle_suffix()) == e);
}

/// The listing of two lists of names one after the other is the listing of
/// the first followed by that of the second: names are kept or left out one
/// by one, in their order.
pub proof fn lemma_rle_names_concat(a: Seq<Seq<char>>, b: Seq<Seq<char>>)
    ensures
        rle_names(a + b) == rle_names(a) + rle_names(b),
{
    Seq::filter_distributes_over_add(a, b, |n: Seq<char>| ends_with(n, rle_suffix()));
}

} // verus!
