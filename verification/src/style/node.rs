//! What a styled node says of itself: its values, with fallbacks and
//! defaults, its display kind, colours and font settings.
use vstd::prelude::*;
use crate::css::model::{digits_value, Value, ValueView, Color, DecimalView};
use crate::css::color::{NamedColors, find_named_color, hex_color_ok, hex_color, hex_color_valid};
use crate::dom::model::{NodeType, NodeTypeView, pairs_map};
use crate::style::props::clone_value;
use crate::style::tree::{StyledNode, StyledView};

verus! {

/// The value a styled node has for `name`, if any.
pub open spec fn prop(s: StyledView, name: Seq<char>) -> Option<ValueView> {
    if pairs_map(s.values).contains_key(name) {
        Some(pairs_map(s.values)[name])
    } else {
        None
    }
}

/// How a node takes part in layout.
#[derive(Clone, Copy, Debug, PartialEq, Eq, Structural)]
pub enum Display {
    Block,
    Inline,
    InlineBlock,
    Table,
    TableRowGroup,
    TableRow,
    TableCell,
    ListItem,
    /// `display: none`: no box at all.
    Hidden,
}

/// The marker drawn before a list item.
#[derive(Clone, Copy, Debug, PartialEq, Eq, Structural)]
pub enum ListMarker {
    Disc,
    Decimal,
    /// No marker.
    NoMarker,
}

/// The display kind of a node: text is inline; otherwise the `display`
/// keyword decides, inline when there is none or it is not known.
pub open spec fn display_of(s: StyledView) -> Display {
    if s.node.node_type is Text {
        Display::Inline
    } else {
        match prop(s, "display"@) {
            Some(ValueView::Keyword(k)) => if k == "block"@ {
                Display::Block
            } else if k == "none"@ {
                Display::Hidden
            } else if k == "inline-block"@ {
                Display::InlineBlock
            } else if k == "table"@ {
                Display::Table
            } else if k == "table-row-group"@ {
                Display::TableRowGroup
            } else if k == "table-row"@ {
                Display::TableRow
            } else if k == "table-cell"@ {
                Display::TableCell
            } else if k == "list-item"@ {
                Display::ListItem
            } else {
                Display::Inline
            },
            _ => Display::Inline,
        }
    }
}

/// The display keywords that name a display kind, with `inline`.
pub open spec fn known_display_keyword(k: Seq<char>) -> bool {
    ||| k == "block"@
    ||| k == "none"@
    ||| k == "inline"@
    ||| k == "inline-block"@
    ||| k == "table"@
    ||| k == "table-row-group"@
    ||| k == "table-row"@
    ||| k == "table-cell"@
    ||| k == "list-item"@
}

/// An element whose `display` is a known keyword takes the display kind
/// that the keyword names (`inline-block` gives `InlineBlock`, `table-row`
/// gives `TableRow`, and so on), so two elements with different known
/// keywords have different display kinds.
pub proof fn lemma_display_keywords(s: StyledView, t: StyledView, k: Seq<char>, l: Seq<char>)
    requires
        !(s.node.node_type is Text),
        !(t.node.node_type is Text),
        prop(s, "display"@) == Some(ValueView::Keyword(k)),
        prop(t, "display"@) == Some(ValueView::Keyword(l)),
    ensures
        k == "block"@ ==> display_of(s) == Display::Block,
        k == "none"@ ==> display_of(s) == Display::Hidden,
        k == "inline"@ ==> display_of(s) == Display::Inline,
        k == "inline-block"@ ==> display_of(s) == Display::InlineBlock,
        k == "table"@ ==> display_of(s) == Display::Table,
        k == "table-row-group"@ ==> display_of(s) == Display::TableRowGroup,
        k == "table-row"@ ==> display_of(s) == Display::TableRow,
        k == "table-cell"@ ==> display_of(s) == Display::TableCell,
        k == "list-item"@ ==> display_of(s) == Display::ListItem,
        known_display_keyword(k) && known_display_keyword(l) && k != l ==> display_of(s) != display_of(t),
{
    reveal_strlit("block");
    reveal_strlit("none");
    reveal_strlit("inline");
    reveal_strlit("inline-block");
    reveal_strlit("table");
    reveal_strlit("table-row-group");
    reveal_strlit("table-row");
    reveal_strlit("table-cell");
    reveal_strlit("list-item");
    assert("block"@.len() == 5 && "none"@.len() == 4 && "inline"@.len() == 6);
    assert("inline-block"@.len() == 12 && "table"@.len() == 5 && "table-row-group"@.len() == 15);
    assert("table-row"@.len() == 9 && "table-cell"@.len() == 10 && "list-item"@.len() == 9);
    assert("block"@[0] != "table"@[0]);
    assert("table-row"@[0] != "list-item"@[0]);
    if k == "inline"@ {
        assert(k != "block"@ && k != "none"@ && k != "inline-block"@ && k != "table"@);
        assert(k != "table-row-group"@ && k != "table-row"@ && k != "table-cell"@ && k != "list-item"@);
    }
}

/// The value of `name`, else that of `fallback`, else `default`.
pub open spec fn lookup_of(s: StyledView, name: Seq<char>, fallback: Seq<char>, default: ValueView) -> ValueView {
    match prop(s, name) {
        Some(v) => v,
        None => match prop(s, fallback) {
            Some(v) => v,
            None => default,
        },
    }
}

/// The text of a string or keyword value of `name`, else `default`.
pub open spec fn lookup_string_of(s: StyledView, name: Seq<char>, default: Seq<char>) -> Seq<char> {
    match prop(s, name) {
        Some(ValueView::StringLiteral(t)) => t,
        Some(ValueView::Keyword(t)) => t,
        _ => default,
    }
}

/// A keyword value of `name`, else `default`.
pub open spec fn lookup_keyword_of(s: StyledView, name: Seq<char>, default: ValueView) -> ValueView {
    match prop(s, name) {
        Some(ValueView::Keyword(t)) => ValueView::Keyword(t),
        _ => default,
    }
}

/// `n` brought into the range of `i32`.
pub open spec fn saturate_i32(n: int) -> i32 {
    if n > 2147483647 {
        2147483647i32
    } else if n < -2147483648 {
        -2147483648i32
    } else {
        n as i32
    }
}

/// A number truncated towards zero to an `i32`, saturating at its bounds.
pub open spec fn truncate_i32(d: DecimalView) -> i32 {
    saturate_i32(
        if d.negative {
            -digits_value(d.int_digits)
        } else {
            digits_value(d.int_digits)
        },
    )
}

/// The weight that the `font-weight` value gives: 400 for `normal`, 700 for
/// `bold`, a number truncated, else `default`.
pub open spec fn font_weight_of(s: StyledView, default: i32) -> i32 {
    match lookup_of(s, "font-weight"@, "font-weight"@, ValueView::Keyword("normal"@)) {
        ValueView::Keyword(k) => if k == "normal"@ {
            400
        } else if k == "bold"@ {
            700
        } else {
            default
        },
        ValueView::Number(d) => truncate_i32(d),
        _ => default,
    }
}

/// The families a font stack names, in order.
pub open spec fn family_name(v: ValueView) -> Option<Seq<char>> {
    match v {
        ValueView::StringLiteral(t) => Some(t),
        ValueView::Keyword(t) => Some(t),
        _ => None,
    }
}

/// The first family of a stack that is installed.
pub open spec fn first_installed(vals: Seq<ValueView>, installed: Set<Seq<char>>) -> Option<Seq<char>>
    decreases vals.len(),
{
    if vals.len() == 0 {
        None
    } else {
        match family_name(vals[0]) {
            Some(f) => if installed.contains(f) {
                Some(f)
            } else {
                first_installed(vals.drop_first(), installed)
            },
            None => first_installed(vals.drop_first(), installed),
        }
    }
}

/// The font family to draw with: the first installed family of a stack
/// (`sans-serif` when none is), a single keyword as it is, else
/// `sans-serif`.
pub open spec fn font_family_of(s: StyledView, installed: Set<Seq<char>>) -> Seq<char> {
    match lookup_of(s, "font-family"@, "font-family"@, ValueView::Keyword("sans-serif"@)) {
        ValueView::ArrayValue(vals) => match first_installed(vals, installed) {
            Some(f) => f,
            None => "sans-serif"@,
        },
        ValueView::Keyword(k) => k,
        _ => "sans-serif"@,
    }
}

/// Colours of `name` can be read: a hex colour is one that
/// [`Color::from_hex`] accepts.
pub open spec fn color_readable(s: StyledView, name: Seq<char>) -> bool {
    prop(s, name) matches Some(ValueView::HexColor(h)) ==> hex_color_ok(h)
}

/// The colour of `name`: a colour value, a hex colour, or a keyword that
/// names a colour (in any case).
pub open spec fn color_of(s: StyledView, name: Seq<char>, named: Map<Seq<char>, Color>) -> Option<Color> {
    match prop(s, name) {
        Some(ValueView::ColorValue(c)) => Some(c),
        Some(ValueView::HexColor(h)) => Some(hex_color(h)),
        Some(ValueView::Keyword(k)) => if named.contains_key(crate::text::lower_text(k)) {
            Some(named[crate::text::lower_text(k)])
        } else {
            None
        },
        _ => None,
    }
}

/// The marker of a list item: a disc when `display` is `list-item` and
/// `list-style-type` is `disc`, else none.
pub open spec fn list_marker_of(s: StyledView) -> ListMarker {
    if lookup_string_of(s, "display"@, "block"@) == "list-item"@ && lookup_string_of(
        s,
        "list-style-type"@,
        "none"@,
    ) == "disc"@ {
        ListMarker::Disc
    } else {
        ListMarker::NoMarker
    }
}

/// The font families that are installed.
#[derive(Debug)]
pub struct FontFamilies {
    names: Vec<String>,
}

impl View for FontFamilies {
    type V = Set<Seq<char>>;

    closed spec fn view(&self) -> Set<Seq<char>> {
        Set::new(|f: Seq<char>| exists|k: int| 0 <= k < self.names@.len() && #[trigger] self.names@[k]@ == f)
    }
}

impl FontFamilies {
    /// No family installed.
    pub fn new() -> (r: FontFamilies)
        ensures
            r@ == Set::<Seq<char>>::empty(),
    {
        let r = FontFamilies { names: Vec::new() };
        assert(r@ =~= Set::<Seq<char>>::empty());
        r
    }

    /// Records that `family` is installed.
    pub fn add(&mut self, family: &str)
        ensures
            final(self)@ == old(self)@.insert(family@),
    {
        let ghost before = self@;
        let f = family.to_owned();
        self.names.push(f);
        assert forall|g: Seq<char>| #[trigger] self@.contains(g) == before.insert(family@).contains(g) by {
            if before.contains(g) {
                let k = choose|k: int| 0 <= k < old(self).names@.len() && #[trigger] old(self).names@[k]@ == g;
                assert(self.names@[k]@ == g);
            }
            if g == family@ {
                assert(self.names@[self.names@.len() - 1]@ == g);
            }
            if self@.contains(g) {
                let k = choose|k: int| 0 <= k < self.names@.len() && #[trigger] self.names@[k]@ == g;
                if k < self.names@.len() - 1 {
                    assert(old(self).names@[k]@ == g);
                }
            }
        }
        assert(self@ =~= before.insert(family@));
    }

    /// Whether `family` is installed.
    pub fn has_font_family(&self, family: &str) -> (r: bool)
        ensures
            r == self@.contains(family@),
    {
        let f = family.to_owned();
        let mut k: usize = 0;
        while k < self.names.len()
            invariant
                k <= self.names@.len(),
                f@ == family@,
                forall|j: int| 0 <= j < k ==> self.names@[j]@ != family@,
            decreases self.names@.len() - k,
        {
            if self.names[k] == f {
                assert(self@.contains(family@));
                return true;
            }
            k = k + 1;
        }
        false
    }
}

fn is_word(s: &String, word: &str) -> (r: bool)
    ensures
        r == (s@ == word@),
{
    *s == word.to_owned()
}

/// The integer part of a number, truncated towards zero and saturated.
pub(crate) fn truncate_decimal(d: &crate::css::model::Decimal) -> (r: i32)
    ensures
        r == truncate_i32(d@),
{
    let ghost ds = d@.int_digits;
    let mut v: u64 = 0;
    let mut capped = false;
    let mut k: usize = 0;
    while k < d.int_digits.len()
        invariant
            k <= ds.len(),
            ds == d.int_digits@,
            !capped ==> v == digits_value(ds.subrange(0, k as int)),
            capped ==> digits_value(ds.subrange(0, k as int)) > 2147483648,
            v <= 2147483648,
        decreases ds.len() - k,
    {
        let dg = d.int_digits[k];
        let ghost pre = ds.subrange(0, k + 1);
        assert(pre.drop_last() =~= ds.subrange(0, k as int));
        assert(pre.last() == dg);
        if !capped {
            let nv = v * 10 + dg as u64;
            if nv > 2147483648 {
                capped = true;
            } else {
                v = nv;
            }
        }
        k = k + 1;
    }
    assert(ds.subrange(0, k as int) =~= ds);
    if capped {
        if d.negative {
            -2147483648
        } else {
            2147483647
        }
    } else if d.negative {
        if v == 2147483648 {
            -2147483648
        } else {
            -(v as i32)
        }
    } else if v > 2147483647 {
        2147483647
    } else {
        v as i32
    }
}

impl StyledNode {
    /// A copy of the value of `name`.
    pub fn value(&self, name: &str) -> (r: Option<Value>)
        ensures
            match r {
                Some(v) => prop(self@, name@) == Some(v@),
                None => prop(self@, name@) is None,
            },
    {
        match self.specified_values.get(name) {
            Some(v) => Some(clone_value(v)),
            None => None,
        }
    }

    /// The value of `name`, else that of `fallback_name`, else `default`.
    pub fn lookup(&self, name: &str, fallback_name: &str, default: &Value) -> (r: Value)
        ensures
            r@ == lookup_of(self@, name@, fallback_name@, default@),
    {
        match self.value(name) {
            Some(v) => v,
            None => match self.value(fallback_name) {
                Some(v) => v,
                None => clone_value(default),
            },
        }
    }

    /// The text of a string or keyword value of `name`, else `default`.
    pub fn lookup_string(&self, name: &str, default: &str) -> (r: String)
        ensures
            r@ == lookup_string_of(self@, name@, default@),
    {
        match self.value(name) {
            Some(Value::StringLiteral(txt)) => txt,
            Some(Value::Keyword(s)) => s,
            _ => default.to_owned(),
        }
    }

    /// A keyword value of `name`, else `default`.
    pub fn lookup_keyword(&self, name: &str, default: &Value) -> (r: Value)
        ensures
            r@ == lookup_keyword_of(self@, name@, default@),
    {
        match self.value(name) {
            Some(Value::Keyword(txt)) => Value::Keyword(txt),
            _ => clone_value(default),
        }
    }

    /// The `text-decoration-line` keyword, `none` when there is none.
    pub fn lookup_text_decoration_line(&self) -> (r: String)
        ensures
            r@ == match lookup_keyword_of(self@, "text-decoration-line"@, ValueView::Keyword("none"@)) {
                ValueView::Keyword(k) => k,
                _ => "none"@,
            },
    {
        let val = self.lookup_keyword("text-decoration-line", &Value::Keyword("none".to_owned()));
        if let Value::Keyword(s) = val {
            s
        } else {
            "none".to_owned()
        }
    }

    /// The font weight: 400 for `normal`, 700 for `bold`, a number
    /// truncated, else `default`.
    pub fn lookup_font_weight(&self, default: i32) -> (r: i32)
        ensures
            r == font_weight_of(self@, default),
    {
        match self.lookup("font-weight", "font-weight", &Value::Keyword("normal".to_owned())) {
            Value::Keyword(s) => {
                if is_word(&s, "normal") {
                    400
                } else if is_word(&s, "bold") {
                    700
                } else {
                    default
                }
            },
            Value::Number(v) => truncate_decimal(&v),
            _ => default,
        }
    }

    /// The font family to draw with.
    pub fn lookup_font_family(&self, installed: &FontFamilies) -> (r: String)
        ensures
            r@ == font_family_of(self@, installed@),
    {
        match self.lookup("font-family", "font-family", &Value::Keyword("sans-serif".to_owned())) {
            Value::ArrayValue(vals) => {
                let ghost vv = crate::css::model::value_views(vals@);
                proof {
                    crate::css::model::lemma_value_views(vals@);
                }
                assert(vv.skip(0) =~= vv);
                let ghost want = font_family_of(self@, installed@);
                assert(want == match first_installed(vv, installed@) {
                    Some(f) => f,
                    None => "sans-serif"@,
                });
                let mut k: usize = 0;
                while k < vals.len()
                    invariant
                        k <= vals@.len(),
                        want == font_family_of(self@, installed@),
                        want == match first_installed(vv, installed@) {
                            Some(f) => f,
                            None => "sans-serif"@,
                        },
                        vv == crate::css::model::value_views(vals@),
                        vv.len() == vals@.len(),
                        forall|j: int| 0 <= j < vals@.len() ==> #[trigger] vv[j] == vals@[j]@,
                        first_installed(vv, installed@) == first_installed(vv.skip(k as int), installed@),
                    decreases vals@.len() - k,
                {
                    assert(vv.skip(k as int)[0] == vv[k as int]);
                    assert(vv.skip(k as int).drop_first() =~= vv.skip(k + 1));
                    match &vals[k] {
                        Value::StringLiteral(s) => {
                            if installed.has_font_family(s.as_str()) {
                                return s.clone();
                            }
                        },
                        Value::Keyword(s) => {
                            if installed.has_font_family(s.as_str()) {
                                return s.clone();
                            }
                        },
                        _ => {},
                    }
                    k = k + 1;
                }
                assert(vv.skip(k as int) =~= Seq::<ValueView>::empty());
                "sans-serif".to_owned()
            },
            Value::Keyword(s) => s,
            _ => "sans-serif".to_owned(),
        }
    }

    /// The display kind of the node.
    pub fn display(&self) -> (r: Display)
        ensures
            r == display_of(self@),
    {
        if let NodeType::Text(_) = &self.node.node_type {
            return Display::Inline;
        }
        match self.value("display") {
            Some(Value::Keyword(s)) => {
                if is_word(&s, "block") {
                    Display::Block
                } else if is_word(&s, "none") {
                    Display::Hidden
                } else if is_word(&s, "inline-block") {
                    Display::InlineBlock
                } else if is_word(&s, "table") {
                    Display::Table
                } else if is_word(&s, "table-row-group") {
                    Display::TableRowGroup
                } else if is_word(&s, "table-row") {
                    Display::TableRow
                } else if is_word(&s, "table-cell") {
                    Display::TableCell
                } else if is_word(&s, "list-item") {
                    Display::ListItem
                } else {
                    Display::Inline
                }
            },
            _ => Display::Inline,
        }
    }

    /// The colour of `name`, reading keywords in the table of named colours.
    pub fn color(&self, name: &str, named: &NamedColors) -> (r: Option<Color>)
        requires
            color_readable(self@, name@),
        ensures
            r == color_of(self@, name@, named@),
    {
        match self.value(name) {
            Some(Value::ColorValue(c)) => Some(c),
            Some(Value::HexColor(s)) => Some(Color::from_hex(s.as_str())),
            Some(Value::Keyword(k)) => find_named_color(k.as_str(), named),
            _ => None,
        }
    }

    /// Whether [`StyledNode::color`] can read the colour of `name`.
    pub fn color_is_readable(&self, name: &str) -> (r: bool)
        ensures
            r == color_readable(self@, name@),
    {
        match self.value(name) {
            Some(Value::HexColor(s)) => hex_color_valid(s.as_str()),
            _ => true,
        }
    }

    /// The colour of `name`, else `default`.
    pub fn lookup_color(&self, name: &str, default: &Color, named: &NamedColors) -> (r: Color)
        requires
            color_readable(self@, name@),
        ensures
            r == match color_of(self@, name@, named@) {
                Some(c) => c,
                None => *default,
            },
    {
        match self.color(name, named) {
            Some(c) => c,
            None => *default,
        }
    }

    /// The marker of a list item.
    pub fn list_marker(&self) -> (r: ListMarker)
        ensures
            r == list_marker_of(self@),
    {
        if is_word(&self.lookup_string("display", "block"), "list-item") {
            if is_word(&self.lookup_string("list-style-type", "none"), "disc") {
                ListMarker::Disc
            } else {
                ListMarker::NoMarker
            }
        } else {
            ListMarker::NoMarker
        }
    }
}

} // verus!
