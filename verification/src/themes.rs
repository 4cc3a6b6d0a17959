//! Reading the color store document.
//!
//! The store is a JSON object holding an ordered list of at least
//! sixteen color strings and an optional wallpaper path. The caller
//! reads the file and hands the text here; absence, malformed content or
//! a short palette is a recoverable error that the bridge reports as an
//! unsuccessful response, never a crash.

use crate::json::{
    compact, json_view, lemma_wf_list, member_views_of, parse_json, ser, wf, wf_member_list,
    wf_str, Json, JsonVal,
};
use crate::messaging::{color_data_json, ColorData, ColorDataV};
use vstd::prelude::*;
use vstd::string::StringExecFns;

verus! {

/// The first member named `key`, if any.
pub open spec fn find_value(m: Seq<(Seq<char>, JsonVal)>, key: Seq<char>) -> Option<JsonVal>
    decreases m.len(),
{
    if m.len() == 0 {
        Option::None
    } else if m[0].0 == key {
        Option::Some(m[0].1)
    } else {
        find_value(m.drop_first(), key)
    }
}

/// All values of a list are strings.
pub open spec fn strs_ok(a: Seq<JsonVal>) -> bool {
    forall|i: int| 0 <= i < a.len() ==> (#[trigger] a[i]) is Str
}

/// The strings of a list of string values.
pub open spec fn strs_of(a: Seq<JsonVal>) -> Seq<Seq<char>> {
    Seq::new(a.len(), |i: int| a[i]->Str_0)
}

/// What a color store document means: it must be an object whose
/// `colors` member is an array of strings holding at least sixteen
/// entries; `wallpaper` may be a string, null, or absent. Anything else
/// — including a short palette — is a semantic error.
pub open spec fn extract_colors(v: JsonVal) -> Option<ColorDataV> {
    match v {
        JsonVal::Obj(m) => match find_value(m, "colors"@) {
            Option::Some(cv) => match cv {
                JsonVal::Arr(a) => if strs_ok(a) && a.len() >= 16 {
                    match find_value(m, "wallpaper"@) {
                        Option::None => Option::Some(
                            ColorDataV { colors: strs_of(a), wallpaper: Option::None },
                        ),
                        Option::Some(JsonVal::Null) => Option::Some(
                            ColorDataV { colors: strs_of(a), wallpaper: Option::None },
                        ),
                        Option::Some(JsonVal::Str(w)) => Option::Some(
                            ColorDataV { colors: strs_of(a), wallpaper: Option::Some(w) },
                        ),
                        Option::Some(_) => Option::None,
                    }
                } else {
                    Option::None
                },
                _ => Option::None,
            },
            Option::None => Option::None,
        },
        _ => Option::None,
    }
}

/// A palette whose strings the serializer can all represent.
pub open spec fn color_data_wf(c: ColorDataV) -> bool {
    &&& forall|i: int| 0 <= i < c.colors.len() ==> wf_str(#[trigger] c.colors[i])
    &&& (c.wallpaper matches Option::Some(w) ==> wf_str(w))
}

/// Find a member by key.
fn find_field<'a>(fields: &'a Vec<(String, Json)>, key: &str) -> (r: Option<&'a Json>)
    ensures
        match r {
            Option::Some(v) => find_value(member_views_of(fields@), key@) == Option::Some(v@),
            Option::None => find_value(member_views_of(fields@), key@) is None,
        },
{
    let ghost mv = member_views_of(fields@);
    proof {
        assert(mv.skip(0) =~= mv);
    }
    let mut i: usize = 0;
    while i < fields.len()
        invariant
            i <= fields@.len(),
            mv == member_views_of(fields@),
            mv.len() == fields@.len(),
            forall|q: int|
                0 <= q < mv.len() ==> #[trigger] mv[q] == (
                    fields@[q].0@,
                    json_view(fields@[q].1),
                ),
            find_value(mv, key@) == find_value(mv.skip(i as int), key@),
        decreases fields@.len() - i,
    {
        if crate::str_eq(fields[i].0.as_str(), key) {
            proof {
                assert(mv.skip(i as int)[0] == mv[i as int]);
            }
            return Some(&fields[i].1);
        }
        proof {
            assert(mv.skip(i as int)[0] == mv[i as int]);
            assert(mv.skip(i as int).drop_first() =~= mv.skip(i + 1 as int));
        }
        i = i + 1;
    }
    proof {
        assert(mv.skip(fields@.len() as int).len() == 0);
    }
    None
}

/// Read a palette out of a decoded document; `None` means the document
/// is malformed or holds fewer than sixteen colors.
pub fn colors_from_json(j: &Json) -> (r: Option<ColorData>)
    ensures
        (match r {
            Option::Some(cd) => Option::Some(cd@),
            Option::None => Option::None,
        }) == extract_colors(j@),
{
    match j {
        Json::Obj(fields) => {
            let ghost mv = member_views_of(fields@);
            proof {
                assert(json_view(*j)->Obj_0 =~= mv);
            }
            let found = find_field(fields, "colors");
            match found {
                Some(Json::Arr(arr)) => {
                    let ghost fv = find_value(mv, "colors"@)->0;
                    let ghost av = fv->Arr_0;
                    proof {
                        assert(av =~= crate::json::views_of(arr@));
                    }
                    let mut colors: Vec<String> = Vec::new();
                    let mut q: usize = 0;
                    while q < arr.len()
                        invariant
                            q <= arr@.len(),
                            colors@.len() == q,
                            json_view(*j) is Obj,
                            mv == json_view(*j)->Obj_0,
                            find_value(mv, "colors"@) == Option::Some(fv),
                            fv is Arr,
                            av == fv->Arr_0,
                            av.len() == arr@.len(),
                            forall|p: int|
                                0 <= p < av.len() ==> #[trigger] av[p] == json_view(arr@[p]),
                            forall|p: int|
                                0 <= p < q ==> (#[trigger] av[p]) is Str && colors@[p]@
                                    == av[p]->Str_0,
                        decreases arr@.len() - q,
                    {
                        match &arr[q] {
                            Json::Str(s) => {
                                colors.push(s.clone());
                            },
                            _ => {
                                proof {
                                    assert(av[q as int] == json_view(arr@[q as int]));
                                    assert(!(av[q as int] is Str));
                                    assert(!strs_ok(av));
                                }
                                return None;
                            },
                        }
                        q = q + 1;
                    }
                    proof {
                        assert(strs_ok(av));
                    }
                    if colors.len() < 16 {
                        return None;
                    }
                    let wfound = find_field(fields, "wallpaper");
                    let wallpaper: Option<String> = match wfound {
                        None => None,
                        Some(Json::Null) => None,
                        Some(Json::Str(w)) => Some(w.clone()),
                        Some(_) => {
                            return None;
                        },
                    };
                    let cd = ColorData { colors, wallpaper };
                    proof {
                        assert(cd@.colors =~= strs_of(av));
                    }
                    Some(cd)
                },
                Some(_) => None,
                None => None,
            }
        },
        _ => None,
    }
}

/// What extraction owes a canonical palette text, by the palette's size.
pub open spec fn extract_owed(c: ColorDataV) -> Option<ColorDataV> {
    if c.colors.len() >= 16 {
        Option::Some(c)
    } else {
        Option::None
    }
}

/// Whatever extraction accepts holds at least sixteen colors.
proof fn lemma_extract_some_len(v: JsonVal, c: ColorDataV)
    requires
        extract_colors(v) == Option::Some(c),
    ensures
        c.colors.len() >= 16,
{
}

/// The canonical text of a well-formed palette extracts to exactly that
/// palette when it holds at least sixteen colors, and to nothing when it
/// is shorter.
pub proof fn lemma_extract_color_data(c: ColorDataV)
    ensures
        c.colors.len() >= 16 ==> extract_colors(color_data_json(c)) == Option::Some(c),
        c.colors.len() < 16 ==> extract_colors(color_data_json(c)) is None,
{
    reveal_strlit("colors");
    reveal_strlit("wallpaper");
    let v = color_data_json(c);
    let m = v->Obj_0;
    let a = m[0].1->Arr_0;
    assert(m.len() == 2);
    assert(m[0].0 == "colors"@);
    assert(m[1].0 == "wallpaper"@);
    assert("colors"@.len() == 6 && "wallpaper"@.len() == 9);
    assert(find_value(m, "colors"@) == Option::Some(m[0].1));
    assert(m.drop_first() =~= seq![m[1]]);
    assert(find_value(m, "wallpaper"@) == find_value(m.drop_first(), "wallpaper"@));
    assert(find_value(m.drop_first(), "wallpaper"@) == Option::Some(m[1].1));
    assert(strs_ok(a));
    assert(strs_of(a) =~= c.colors);
    match c.wallpaper {
        Option::Some(w) => {
            assert(m[1].1 == JsonVal::Str(w));
        },
        Option::None => {
            assert(m[1].1 == JsonVal::Null);
        },
    }
}

/// The canonical text of a well-formed palette is well formed.
pub proof fn lemma_color_json_wf(c: ColorDataV)
    requires
        color_data_wf(c),
    ensures
        wf(color_data_json(c)),
{
    reveal_strlit("colors");
    reveal_strlit("wallpaper");
    let v = color_data_json(c);
    let m = v->Obj_0;
    let a = m[0].1->Arr_0;
    assert(wf_str("colors"@)) by {
        assert("colors"@[0] == 'c' && "colors"@[1] == 'o' && "colors"@[2] == 'l' && "colors"@[3]
            == 'o' && "colors"@[4] == 'r' && "colors"@[5] == 's');
    }
    assert(wf_str("wallpaper"@)) by {
        assert("wallpaper"@[0] == 'w' && "wallpaper"@[1] == 'a' && "wallpaper"@[2] == 'l'
            && "wallpaper"@[3] == 'l' && "wallpaper"@[4] == 'p' && "wallpaper"@[5] == 'a'
            && "wallpaper"@[6] == 'p' && "wallpaper"@[7] == 'e' && "wallpaper"@[8] == 'r');
    }
    assert forall|i: int| 0 <= i < a.len() implies wf(#[trigger] a[i]) by {
        assert(a[i] == JsonVal::Str(c.colors[i]));
        assert(wf_str(c.colors[i]));
    }
    lemma_wf_list(a);
    assert(wf(m[0].1));
    assert(wf(m[1].1));
    assert(m.drop_first() =~= seq![m[1]]);
    assert(seq![m[1]].drop_first().len() == 0);
    assert(wf_member_list(seq![m[1]].drop_first()));
    assert(wf_member_list(seq![m[1]]));
    assert(wf_member_list(m));
}

/// Parse the color store document. On any text whose compact form is the
/// canonical text of a well-formed palette of at least sixteen colors —
/// pretty-printed files included — it returns exactly that palette; a
/// shorter palette, like malformed content, is the fixed recoverable
/// error.
pub fn parse_color_file(data: &str) -> (r: Result<ColorData, String>)
    ensures
        r matches Ok(cd) ==> cd@.colors.len() >= 16,
        forall|c: ColorDataV|
            color_data_wf(c) && compact(data@) == ser(#[trigger] color_data_json(c))
                && c.colors.len() >= 16 ==> (match r {
                Result::Ok(cd) => cd@ == c,
                Result::Err(_) => false,
            }),
        forall|c: ColorDataV|
            color_data_wf(c) && compact(data@) == ser(#[trigger] color_data_json(c))
                && c.colors.len() < 16 ==> r is Err,
        r matches Err(e) ==> e@ == "json parse color definition"@,
{
    let parsed = parse_json(data);
    match parsed {
        None => {
            proof {
                assert forall|c: ColorDataV|
                    color_data_wf(c) && compact(data@) == ser(
                        #[trigger] color_data_json(c),
                    ) implies false by {
                    lemma_color_json_wf(c);
                }
            }
            Err(String::from_str("json parse color definition"))
        },
        Some(j) => {
            let extracted = colors_from_json(&j);
            proof {
                assert forall|c: ColorDataV|
                    color_data_wf(c) && compact(data@) == ser(
                        #[trigger] color_data_json(c),
                    ) implies extract_colors(j@) == extract_owed(c) by {
                    lemma_color_json_wf(c);
                    assert(j@ == color_data_json(c));
                    lemma_extract_color_data(c);
                }
            }
            match extracted {
                Some(cd) => {
                    proof {
                        assert(extract_colors(j@) == Option::Some(cd@));
                        assert(cd@.colors.len() >= 16) by {
                            lemma_extract_some_len(j@, cd@);
                        }
                    }
                    Ok(cd)
                },
                None => Err(String::from_str("json parse color definition")),
            }
        },
    }
}

} // verus!
