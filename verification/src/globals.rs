//! Settings shared by the whole browser.
use vstd::prelude::*;
use crate::dom::model::pairs_map;

verus! {

/// The shared settings: for now the CSS colour names it knows, each with
/// its hex colour.
pub struct Globals {
    css_named_colors: Vec<(String, String)>,
}

impl View for Globals {
    type V = Map<Seq<char>, Seq<char>>;

    closed spec fn view(&self) -> Map<Seq<char>, Seq<char>> {
        pairs_map(
            Seq::new(
                self.css_named_colors@.len(),
                |k: int| (self.css_named_colors@[k].0@, self.css_named_colors@[k].1@),
            ),
        )
    }
}

/// The shared settings: `aqua` is `#00ffff`.
pub fn make_globals() -> (r: Globals)
    ensures
        r@ == Map::<Seq<char>, Seq<char>>::empty().insert("aqua"@, "#00ffff"@),
{
    let mut map: Vec<(String, String)> = Vec::new();
    map.push(("aqua".to_owned(), "#00ffff".to_owned()));
    let globals = Globals { css_named_colors: map };
    let ghost ps = Seq::new(
        globals.css_named_colors@.len(),
        |k: int| (globals.css_named_colors@[k].0@, globals.css_named_colors@[k].1@),
    );
    assert(ps.drop_last() =~= Seq::<(Seq<char>, Seq<char>)>::empty());
    assert(ps.last() == ("aqua"@, "#00ffff"@));
    assert(pairs_map(ps) == pairs_map(ps.drop_last()).insert(ps.last().0, ps.last().1));
    assert(globals@ == pairs_map(ps));
    globals
}

impl Globals {
    /// The hex colour of a CSS colour name.
    pub fn named_color(&self, name: &str) -> (r: Option<&String>)
        ensures
            r is Some <==> self@.contains_key(name@),
            r matches Some(v) ==> v@ == self@[name@],
    {
        let ghost all = Seq::new(
            self.css_named_colors@.len(),
            |k: int| (self.css_named_colors@[k].0@, self.css_named_colors@[k].1@),
        );
        let key = name.to_owned();
        let mut j = self.css_named_colors.len();
        assert(all.subrange(0, j as int) =~= all);
        while j > 0
            invariant
                j <= all.len(),
                all.len() == self.css_named_colors@.len(),
                all == Seq::new(
                    self.css_named_colors@.len(),
                    |k: int| (self.css_named_colors@[k].0@, self.css_named_colors@[k].1@),
                ),
                key@ == name@,
                pairs_map(all).contains_key(name@) == pairs_map(all.subrange(0, j as int)).contains_key(name@),
                pairs_map(all).contains_key(name@) ==> pairs_map(all)[name@] == pairs_map(
                    all.subrange(0, j as int),
                )[name@],
            decreases j,
        {
            let ghost pre = all.subrange(0, j as int);
            assert(pre.drop_last() =~= all.subrange(0, j - 1));
            assert(pre.last() == all[j - 1]);
            if self.css_named_colors[j - 1].0 == key {
                return Some(&self.css_named_colors[j - 1].1);
            }
            j = j - 1;
        }
        None
    }
}

} // verus!
