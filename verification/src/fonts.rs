//! The fonts that `@font-face` rules ask for.
use vstd::prelude::*;
use crate::css::model::{
    Stylesheet, RuleType, RuleTypeView, Rule, RuleView, Declaration, DeclarationView, Value,
    ValueView, rule_type_views, lemma_rule_type_views, value_views, lemma_value_views,
};
use crate::net::urls::{joined, join_url};
use crate::style::node::{truncate_i32, truncate_decimal};
use crate::text::{lower_text, to_lowercase, chars_of};

verus! {

/// What looking for a TrueType source in a value gives.
pub enum SourceView {
    Found(Seq<char>),
    Missing,
    /// A call without arguments, which cannot be read.
    EmptyCall,
}

enum Source {
    Found(String),
    Missing,
    EmptyCall,
}

impl View for Source {
    type V = SourceView;

    closed spec fn view(&self) -> SourceView {
        match self {
            Source::Found(u) => SourceView::Found(u@),
            Source::Missing => SourceView::Missing,
            Source::EmptyCall => SourceView::EmptyCall,
        }
    }
}

/// The text ends with `.ttf`.
pub open spec fn ends_with_ttf(t: Seq<char>) -> bool {
    t.len() >= 4 && t.subrange(t.len() - 4, t.len() as int) == seq!['.', 't', 't', 'f']
}

/// The TrueType font a `src` value names, resolved against `base`: the
/// first argument of a call when it is a string that ends with `.ttf` in any
/// case and resolves; in a list, the first value that names one.
pub open spec fn truetype_of(v: ValueView, base: Seq<char>) -> SourceView
    decreases v,
{
    match v {
        ValueView::FunCall(_, args) => if args.len() == 0 {
            SourceView::EmptyCall
        } else {
            match args[0] {
                ValueView::StringLiteral(s) => if ends_with_ttf(lower_text(s)) {
                    match joined(base, s) {
                        Ok(u) => SourceView::Found(u),
                        Err(_) => SourceView::Missing,
                    }
                } else {
                    SourceView::Missing
                },
                _ => SourceView::Missing,
            }
        },
        ValueView::ArrayValue(vals) => truetype_in(vals, base),
        _ => SourceView::Missing,
    }
}

pub open spec fn truetype_in(vals: Seq<ValueView>, base: Seq<char>) -> SourceView
    decreases vals,
{
    if vals.len() == 0 {
        SourceView::Missing
    } else {
        match truetype_of(vals[0], base) {
            SourceView::Missing => truetype_in(vals.drop_first(), base),
            other => other,
        }
    }
}

fn text_ends_with_ttf(t: &String) -> (r: bool)
    ensures
        r == ends_with_ttf(t@),
{
    let cs = chars_of(t.as_str());
    let n = cs.len();
    if n < 4 {
        return false;
    }
    let ok = cs[n - 4] == '.' && cs[n - 3] == 't' && cs[n - 2] == 't' && cs[n - 1] == 'f';
    if ok {
        assert(t@.subrange(n - 4, n as int) =~= seq!['.', 't', 't', 'f']);
    } else {
        assert(t@.subrange(n - 4, n as int) != seq!['.', 't', 't', 'f']) by {
            if t@.subrange(n - 4, n as int) == seq!['.', 't', 't', 'f'] {
                assert(t@.subrange(n - 4, n as int)[0] == t@[n - 4]);
                assert(t@.subrange(n - 4, n as int)[1] == t@[n - 3]);
                assert(t@.subrange(n - 4, n as int)[2] == t@[n - 2]);
                assert(t@.subrange(n - 4, n as int)[3] == t@[n - 1]);
            }
        }
    }
    ok
}

fn find_truetype_url(value: &Value, base: &String) -> (r: Source)
    ensures
        r@ == truetype_of(value@, base@),
    decreases value,
{
    match value {
        Value::FunCall(fcv) => {
            proof {
                lemma_value_views(fcv.arguments@);
            }
            if fcv.arguments.len() == 0 {
                return Source::EmptyCall;
            }
            match &fcv.arguments[0] {
                Value::StringLiteral(s) => {
                    if !text_ends_with_ttf(&to_lowercase(s.as_str())) {
                        return Source::Missing;
                    }
                    match join_url(base.as_str(), s.as_str()) {
                        Ok(u) => Source::Found(u),
                        Err(_) => Source::Missing,
                    }
                },
                _ => Source::Missing,
            }
        },
        Value::ArrayValue(vals) => {
            assert(decreases_to!(value => vals));
            find_in_list(vals, base)
        },
        _ => Source::Missing,
    }
}

fn find_in_list(vals: &Vec<Value>, base: &String) -> (r: Source)
    ensures
        r@ == truetype_in(value_views(vals@), base@),
    decreases vals@,
{
    let ghost vv = value_views(vals@);
    proof {
        lemma_value_views(vals@);
    }
    assert(vv.skip(0) =~= vv);
    let mut k: usize = 0;
    while k < vals.len()
        invariant
            k <= vals@.len(),
            vv == value_views(vals@),
            vv.len() == vals@.len(),
            forall|j: int| 0 <= j < vals@.len() ==> #[trigger] vv[j] == vals@[j]@,
            truetype_in(vv, base@) == truetype_in(vv.skip(k as int), base@),
        decreases vals@.len() - k,
    {
        assert(vv.skip(k as int)[0] == vv[k as int]);
        assert(vv.skip(k as int).drop_first() =~= vv.skip(k + 1));
        assert(decreases_to!(vals@ => vals@[k as int]));
        let res = find_truetype_url(&vals[k], base);
        match res {
            Source::Missing => {},
            _ => {
                return res;
            },
        }
        k = k + 1;
    }
    assert(vv.skip(k as int) =~= Seq::<ValueView>::empty());
    Source::Missing
}

/// Once a `src` cannot be read, the declarations after it change nothing.
proof fn lemma_broken_stays(ds: Seq<DeclarationView>, k: int, base: Seq<char>)
    requires
        0 <= k <= ds.len(),
        face_state(ds.subrange(0, k), base).broken,
    ensures
        face_state(ds, base).broken,
    decreases ds.len() - k,
{
    if k < ds.len() {
        let pre = ds.subrange(0, k + 1);
        assert(pre.drop_last() =~= ds.subrange(0, k));
        lemma_broken_stays(ds, k + 1, base);
    } else {
        assert(ds.subrange(0, k) =~= ds);
    }
}

/// The weight a `font-weight` value gives: 400 for `normal`, 700 for
/// `bold`, a number truncated.
pub open spec fn weight_of(v: ValueView) -> Option<i32> {
    match v {
        ValueView::Keyword(k) => if k == "normal"@ {
            Some(400i32)
        } else if k == "bold"@ {
            Some(700i32)
        } else {
            None
        },
        ValueView::Number(d) => Some(truncate_i32(d)),
        _ => None,
    }
}

fn is_word(s: &String, word: &str) -> (r: bool)
    ensures
        r == (s@ == word@),
{
    *s == word.to_owned()
}

fn extract_font_weight(value: &Value) -> (r: Option<i32>)
    ensures
        r == weight_of(value@),
{
    match value {
        Value::Keyword(s) => {
            if is_word(s, "normal") {
                Some(400)
            } else if is_word(s, "bold") {
                Some(700)
            } else {
                None
            }
        },
        Value::Number(d) => Some(truncate_decimal(d)),
        _ => None,
    }
}

/// What the declarations of a font face rule set, so far.
pub struct FaceState {
    pub src: Option<Seq<char>>,
    pub family: Option<Seq<char>>,
    pub weight: Option<i32>,
    /// A `src` value could not be read.
    pub broken: bool,
}

/// The settings after one more declaration: `src`, `font-weight` and
/// `font-family` each replace what was set before.
pub open spec fn face_step(st: FaceState, d: DeclarationView, base: Seq<char>) -> FaceState {
    let st1 = if d.name == "src"@ {
        match truetype_of(d.value, base) {
            SourceView::Found(u) => FaceState { src: Some(u), ..st },
            SourceView::Missing => FaceState { src: None, ..st },
            SourceView::EmptyCall => FaceState { broken: true, ..st },
        }
    } else {
        st
    };
    let st2 = if d.name == "font-weight"@ {
        FaceState { weight: weight_of(d.value), ..st1 }
    } else {
        st1
    };
    if d.name == "font-family"@ {
        FaceState {
            family: match d.value {
                ValueView::StringLiteral(f) => Some(f),
                _ => None,
            },
            ..st2
        }
    } else {
        st2
    }
}

pub open spec fn face_state(ds: Seq<DeclarationView>, base: Seq<char>) -> FaceState
    decreases ds.len(),
{
    if ds.len() == 0 {
        FaceState { src: None, family: None, weight: None, broken: false }
    } else {
        let st = face_state(ds.drop_last(), base);
        if st.broken {
            st
        } else {
            face_step(st, ds.last(), base)
        }
    }
}

/// A font to load: its family, the URL of its file and its weight.
#[derive(Debug, PartialEq, Eq)]
pub struct FontFace {
    pub family: String,
    pub url: String,
    pub weight: i32,
}

pub struct FontFaceView {
    pub family: Seq<char>,
    pub url: Seq<char>,
    pub weight: i32,
}

impl View for FontFace {
    type V = FontFaceView;

    open spec fn view(&self) -> FontFaceView {
        FontFaceView { family: self.family@, url: self.url@, weight: self.weight }
    }
}

pub open spec fn face_views(v: Seq<FontFace>) -> Seq<FontFaceView> {
    Seq::new(v.len(), |k: int| v[k]@)
}

/// The font a rule of a font face asks for, when it sets a family, a
/// TrueType source and a weight.
pub open spec fn face_of(st: FaceState) -> Seq<FontFaceView> {
    match (st.family, st.src, st.weight) {
        (Some(f), Some(u), Some(w)) => seq![FontFaceView { family: f, url: u, weight: w }],
        _ => Seq::empty(),
    }
}

/// The fonts that the rules inside a font face ask for.
pub open spec fn faces_in(rts: Seq<RuleTypeView>, base: Seq<char>) -> Seq<FontFaceView>
    decreases rts.len(),
{
    if rts.len() == 0 {
        Seq::empty()
    } else {
        faces_in(rts.drop_last(), base) + match rts.last() {
            RuleTypeView::Rule(r) => face_of(face_state(r.declarations, base)),
            _ => Seq::empty(),
        }
    }
}

/// Some rule inside a font face has a `src` that cannot be read.
pub open spec fn broken_in(rts: Seq<RuleTypeView>, base: Seq<char>) -> bool {
    exists|k: int| 0 <= k < rts.len() && #[trigger] rts[k] is Rule && face_state(rts[k]->Rule_0.declarations, base).broken
}

/// The `@font-face` item with its inner rules.
pub open spec fn font_face_rules(rt: RuleTypeView) -> Option<Seq<RuleTypeView>> {
    match rt {
        RuleTypeView::AtRule(name, _, inner) => if name == "font-face"@ {
            Some(inner)
        } else {
            None
        },
        _ => None,
    }
}

/// The fonts that the `@font-face` items of a sheet ask for, in order.
pub open spec fn font_faces(rts: Seq<RuleTypeView>, base: Seq<char>) -> Seq<FontFaceView>
    decreases rts.len(),
{
    if rts.len() == 0 {
        Seq::empty()
    } else {
        font_faces(rts.drop_last(), base) + match font_face_rules(rts.last()) {
            Some(inner) => faces_in(inner, base),
            None => Seq::empty(),
        }
    }
}

/// Some `@font-face` item of the sheet has a `src` that cannot be read.
pub open spec fn faces_broken(rts: Seq<RuleTypeView>, base: Seq<char>) -> bool {
    exists|k: int| 0 <= k < rts.len() && #[trigger] item_broken(rts[k], base)
}

/// The item is a font face with a `src` that cannot be read.
pub open spec fn item_broken(rt: RuleTypeView, base: Seq<char>) -> bool {
    match font_face_rules(rt) {
        Some(inner) => broken_in(inner, base),
        None => false,
    }
}

/// A font face `src` that is a call without arguments.
#[derive(Debug, PartialEq, Eq)]
pub struct UnreadableSource;

fn face_from_rule(rule: &Rule, base: &String) -> (r: Option<Option<FontFace>>)
    ensures
        match r {
            None => face_state(rule@.declarations, base@).broken,
            Some(o) => !face_state(rule@.declarations, base@).broken && match o {
                Some(f) => face_of(face_state(rule@.declarations, base@)) == seq![f@],
                None => face_of(face_state(rule@.declarations, base@)) == Seq::<FontFaceView>::empty(),
            },
        },
{
    let ghost ds = rule@.declarations;
    let mut src: Option<String> = None;
    let mut family: Option<String> = None;
    let mut weight: Option<i32> = None;
    let mut k: usize = 0;
    assert(ds.subrange(0, 0) =~= Seq::<DeclarationView>::empty());
    while k < rule.declarations.len()
        invariant
            k <= rule.declarations@.len(),
            ds == rule@.declarations,
            ds.len() == rule.declarations@.len(),
            ({
                let st = face_state(ds.subrange(0, k as int), base@);
                &&& !st.broken
                &&& st.src == match src {
                    Some(u) => Some(u@),
                    None => None::<Seq<char>>,
                }
                &&& st.family == match family {
                    Some(f) => Some(f@),
                    None => None::<Seq<char>>,
                }
                &&& st.weight == weight
            }),
        decreases rule.declarations@.len() - k,
    {
        let dec = &rule.declarations[k];
        let ghost pre = ds.subrange(0, k + 1);
        assert(pre.drop_last() =~= ds.subrange(0, k as int));
        assert(pre.last() == dec@);
        if is_word(&dec.name, "src") {
            match find_truetype_url(&dec.value, base) {
                Source::Found(u) => {
                    src = Some(u);
                },
                Source::Missing => {
                    src = None;
                },
                Source::EmptyCall => {
                    proof {
                        lemma_broken_stays(ds, k + 1, base@);
                    }
                    return None;
                },
            }
        }
        if is_word(&dec.name, "font-weight") {
            weight = extract_font_weight(&dec.value);
        }
        if is_word(&dec.name, "font-family") {
            match &dec.value {
                Value::StringLiteral(f) => {
                    family = Some(f.clone());
                },
                _ => {
                    family = None;
                },
            }
        }
        k = k + 1;
    }
    assert(ds.subrange(0, k as int) =~= ds);
    match (family, src, weight) {
        (Some(f), Some(u), Some(w)) => Some(Some(FontFace { family: f, url: u, weight: w })),
        _ => Some(None),
    }
}

fn faces_from_rules(rules: &Vec<RuleType>, base: &String) -> (r: Result<Vec<FontFace>, UnreadableSource>)
    ensures
        r is Err <==> broken_in(rule_type_views(rules@), base@),
        r matches Ok(v) ==> face_views(v@) == faces_in(rule_type_views(rules@), base@),
{
    let ghost rts = rule_type_views(rules@);
    proof {
        lemma_rule_type_views(rules@);
    }
    let mut out: Vec<FontFace> = Vec::new();
    let mut k: usize = 0;
    assert(face_views(out@) =~= faces_in(rts.subrange(0, 0), base@));
    while k < rules.len()
        invariant
            k <= rules@.len(),
            rts == rule_type_views(rules@),
            rts.len() == rules@.len(),
            forall|j: int| 0 <= j < rts.len() ==> #[trigger] rts[j] == rules@[j]@,
            forall|j: int| 0 <= j < k ==> !(#[trigger] rts[j] is Rule && face_state(rts[j]->Rule_0.declarations, base@).broken),
            face_views(out@) == faces_in(rts.subrange(0, k as int), base@),
        decreases rules@.len() - k,
    {
        let ghost pre = rts.subrange(0, k + 1);
        assert(pre.drop_last() =~= rts.subrange(0, k as int));
        assert(pre.last() == rules@[k as int]@);
        let ghost before = face_views(out@);
        if let RuleType::Rule(rule) = &rules[k] {
            match face_from_rule(rule, base) {
                None => {
                    assert(rts[k as int] is Rule);
                    return Err(UnreadableSource);
                },
                Some(Some(f)) => {
                    out.push(f);
                    assert(face_views(out@) =~= before + seq![f@]);
                },
                Some(None) => {
                    assert(face_views(out@) =~= before + Seq::<FontFaceView>::empty());
                },
            }
        } else {
            assert(face_views(out@) =~= before + Seq::<FontFaceView>::empty());
        }
        k = k + 1;
    }
    assert(rts.subrange(0, k as int) =~= rts);
    Ok(out)
}

/// The fonts that the `@font-face` rules of a sheet ask for, in order, with
/// their sources resolved against the sheet's URL. The error comes exactly
/// when one of them has a `src` that is a call without arguments.
pub fn font_face_requests(ss: &Stylesheet) -> (r: Result<Vec<FontFace>, UnreadableSource>)
    ensures
        r is Err <==> faces_broken(rule_type_views(ss.rules@), ss.base_url@),
        r matches Ok(v) ==> face_views(v@) == font_faces(rule_type_views(ss.rules@), ss.base_url@),
{
    let ghost rts = rule_type_views(ss.rules@);
    let ghost base = ss.base_url@;
    proof {
        lemma_rule_type_views(ss.rules@);
    }
    let mut out: Vec<FontFace> = Vec::new();
    let mut k: usize = 0;
    assert(face_views(out@) =~= font_faces(rts.subrange(0, 0), base));
    while k < ss.rules.len()
        invariant
            k <= ss.rules@.len(),
            rts == rule_type_views(ss.rules@),
            base == ss.base_url@,
            rts.len() == ss.rules@.len(),
            forall|j: int| 0 <= j < rts.len() ==> #[trigger] rts[j] == ss.rules@[j]@,
            forall|j: int| 0 <= j < k ==> !#[trigger] item_broken(rts[j], base),
            face_views(out@) == font_faces(rts.subrange(0, k as int), base),
        decreases ss.rules@.len() - k,
    {
        let ghost pre = rts.subrange(0, k + 1);
        assert(pre.drop_last() =~= rts.subrange(0, k as int));
        assert(pre.last() == ss.rules@[k as int]@);
        let ghost before = face_views(out@);
        let mut handled = false;
        if let RuleType::AtRule(ar) = &ss.rules[k] {
            if is_word(&ar.name, "font-face") {
                handled = true;
                match faces_from_rules(&ar.rules, &ss.base_url) {
                    Ok(fs) => {
                        let ghost added = face_views(fs@);
                        let mut j: usize = 0;
                        let mut fs = fs;
                        let total = fs.len();
                        let ghost all = fs@;
                        while fs.len() > 0
                            invariant
                                j + fs@.len() == total,
                                total == all.len(),
                                fs@ == all.skip(j as int),
                                face_views(out@) == before + face_views(all).subrange(0, j as int),
                            decreases fs@.len(),
                        {
                            let f = fs.remove(0);
                            assert(f == all[j as int]);
                            assert(fs@ =~= all.skip(j + 1));
                            let ghost old_out = face_views(out@);
                            assert(face_views(all)[j as int] == f@);
                            out.push(f);
                            assert(face_views(out@) =~= old_out.push(f@));
                            j = j + 1;
                            assert(face_views(out@) =~= before + face_views(all).subrange(0, j as int));
                        }
                        assert(face_views(all).subrange(0, j as int) =~= face_views(all));
                    },
                    Err(e) => {
                        assert(item_broken(rts[k as int], base));
                        return Err(e);
                    },
                }
            }
        }
        if !handled {
            assert(face_views(out@) =~= before + Seq::<FontFaceView>::empty());
        }
        k = k + 1;
    }
    assert(rts.subrange(0, k as int) =~= rts);
    Ok(out)
}

} // verus!
