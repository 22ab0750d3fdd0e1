use vstd::prelude::*;

use crate::numbers::{decimal, decimal_chars};
use crate::recipe::{
    Ingredient, IngredientView, Recipe, RecipeParser, RecipeParsingError, RecipeView, Task,
    ingredients_view, strings_view,
};
use crate::text::{
    first_index_of, law_cleaned_text, is_line_break, no_double_space, no_line_break, lowercase, lowercase_of, after_first, after_first_char, append_chars, chars_equal, chars_of, collapse_spaces,
    collapsed_spaces, has_prefix, lemma_trimmed_len, remove_line_breaks, split_chars, split_on,
    starts_with, string_of, trim_chars, trimmed, without_line_breaks,
};

verus! {

// ---------------------------------------------------------------------------
// Outside computations: XPath over HTML, regular expressions, letter case
// ---------------------------------------------------------------------------

/// What `sxd_xpath::evaluate_xpath(..).string()` gives for `xpath` on the
/// document that `sxd_html::parse_html(html)` builds; `None` when the XPath
/// evaluation fails.
pub uninterp spec fn xpath_string(html: Seq<char>, xpath: Seq<char>) -> Option<Seq<char>>;

/// What `sxd_xpath::evaluate_xpath` gives for `xpath` on the document that
/// `sxd_html::parse_html(html)` builds, read as nodes: `None` when evaluation
/// fails, `Some(None)` when the value is not a node set, else the nodes in
/// document order, each an element's attributes (local name and value, in
/// order) or `None` for a node that is not an element.
pub uninterp spec fn xpath_element_attributes(
    html: Seq<char>,
    xpath: Seq<char>,
) -> Option<Option<Seq<Option<Seq<(Seq<char>, Seq<char>)>>>>>;

/// The first match of a regular expression.
pub struct CaptureView {
    pub before: Seq<char>,
    pub matched: Seq<char>,
    pub after: Seq<char>,
    pub groups: Seq<Option<Seq<char>>>,
}

/// What `regex::Regex::new(pattern)` and then `captures(text)` give: `None`
/// when the pattern is refused or nothing matches, else the text before the
/// leftmost-first match, the match, the text after it, and the capture group
/// of each of `names` (`None` for a group that did not take part).
pub uninterp spec fn regex_captures(
    pattern: Seq<char>,
    text: Seq<char>,
    names: Seq<Seq<char>>,
) -> Option<CaptureView>;

/// What `char::is_lowercase` gives for `c`.
pub uninterp spec fn is_lowercase_letter(c: char) -> bool;

/// The first match of a regular expression, with the named groups asked for.
pub struct Capture {
    pub before: String,
    pub matched: String,
    pub after: String,
    pub groups: Vec<Option<String>>,
}

impl View for Capture {
    type V = CaptureView;

    open spec fn view(&self) -> CaptureView {
        CaptureView {
            before: self.before@,
            matched: self.matched@,
            after: self.after@,
            groups: self.groups.deep_view(),
        }
    }
}

/// Parses `html` with `sxd_html::parse_html`, evaluates `xpath` on it with
/// `sxd_xpath::evaluate_xpath` and takes the string value of the result. The
/// contract states that the result is `xpath_string(html, xpath)`.
#[verifier::external_body]
fn xpath_string_value(html: &str, xpath: &str) -> (r: Option<String>)
    ensures
        r.deep_view() == xpath_string(html@, xpath@),
{
    let package = sxd_html::parse_html(html);
    let document = package.as_document();
    match sxd_xpath::evaluate_xpath(&document, xpath) {
        Ok(value) => Some(value.string()),
        Err(_) => None,
    }
}

/// Parses `html` with `sxd_html::parse_html`, evaluates `xpath` on it with
/// `sxd_xpath::evaluate_xpath` and reads the attributes of the element nodes
/// of the resulting node set in document order. The contract states that the
/// result is `xpath_element_attributes(html, xpath)`.
#[verifier::external_body]
fn xpath_attributes(html: &str, xpath: &str) -> (r: Option<
    Option<Vec<Option<Vec<(String, String)>>>>,
>)
    ensures
        r.deep_view() == xpath_element_attributes(html@, xpath@),
{
    let package = sxd_html::parse_html(html);
    let document = package.as_document();
    match sxd_xpath::evaluate_xpath(&document, xpath) {
        Ok(sxd_xpath::Value::Nodeset(nodes)) => Some(Some(nodes.document_order().into_iter().map(|node| match node {
            sxd_xpath::nodeset::Node::Element(e) => Some(e.attributes().iter().map(|a| (a.name().local_part().to_string(), a.value().to_string())).collect()),
            _ => None,
        }).collect())),
        Ok(_) => Some(None),
        Err(_) => None,
    }
}

/// `part` occurs in `whole` as a contiguous piece.
pub open spec fn is_infix(part: Seq<char>, whole: Seq<char>) -> bool {
    exists|i: int| 0 <= i && i + part.len() <= whole.len() && #[trigger] whole.subrange(i, i + part.len()) == part
}

/// Compiles `pattern` with `regex::Regex::new` and takes the first match in
/// `text` with `captures`. The contract states that the result is
/// `regex_captures(pattern, text, names)`, that the text before, the match and
/// the text after make up `text` (a match is the span `start..end` of the
/// searched text), that there is one group entry per name, and that each
/// group that took part lies within the match (a group of a match is a span
/// inside the span of the whole match).
#[verifier::external_body]
fn regex_first_captures(pattern: &str, text: &str, names: &Vec<String>) -> (r: Option<Capture>)
    ensures
        r matches Some(c) ==> regex_captures(pattern@, text@, names.deep_view()) == Some(c@)
            && c@.before + c@.matched + c@.after == text@ && c@.groups.len() == names@.len()
            && forall|k: int| 0 <= k < c@.groups.len() ==> (#[trigger] c@.groups[k] matches Some(g)
            ==> is_infix(g, c@.matched)),
        r is None ==> regex_captures(pattern@, text@, names.deep_view()) is None,
{
    let re = match regex::Regex::new(pattern) { Ok(re) => re, Err(_) => return None };
    let caps = re.captures(text)?;
    let whole = caps.get(0)?;
    Some(Capture {
        before: text[..whole.start()].to_string(),
        matched: whole.as_str().to_string(),
        after: text[whole.end()..].to_string(),
        groups: names.iter().map(|n| caps.name(n).map(|m| m.as_str().to_string())).collect(),
    })
}

/// Calls `char::is_lowercase`. The contract states that the result is
/// `is_lowercase_letter(c)`.
#[verifier::external_body]
fn char_is_lowercase(c: char) -> (r: bool)
    ensures
        r == is_lowercase_letter(c),
{
    c.is_lowercase()
}

// ---------------------------------------------------------------------------
// The page layout of the recipe site
// ---------------------------------------------------------------------------

/// Where the recipe title stands.
pub open spec fn title_xpath() -> Seq<char> {
    "/html/body/div[2]/section/div[2]/h2"@
}

/// Where the picture of the dish stands.
pub open spec fn image_xpath() -> Seq<char> {
    "/html/body/div[2]/section/div[3]/div/div[1]/picture/img"@
}

/// The start of the XPath of the numbered paragraphs holding ingredients and
/// steps.
pub open spec fn paragraph_xpath_prefix() -> Seq<char> {
    "/html/body/div[2]/section/div[3]/div/div[5]/div[1]/div[1]/p["@
}

/// The XPath of paragraph number `index`.
pub open spec fn paragraph_xpath(index: nat) -> Seq<char> {
    paragraph_xpath_prefix() + decimal(index) + seq![']']
}

/// The lower-cased paragraph that opens the ingredient list.
pub open spec fn ingredients_heading() -> Seq<char> {
    "вам понадобится"@
}

/// The lower-cased paragraph that closes the ingredient list.
pub open spec fn kitchen_heading() -> Seq<char> {
    "на вашей кухне"@
}

/// The pattern of the paragraph that opens the cooking steps.
pub open spec fn how_to_cook_pattern() -> Seq<char> {
    "как готовить"@
}

/// Lower-cased openings of the paragraphs that follow the last step.
pub open spec fn steps_end_first() -> Seq<char> {
    "если к вам попал овощ не лучшего качества"@
}

/// See `steps_end_first`.
pub open spec fn steps_end_second() -> Seq<char> {
    "корректируйте время приготовления"@
}

/// An ingredient with an amount and unit in brackets.
pub open spec fn amount_in_brackets_pattern() -> Seq<char> {
    "^\\s*(?<name>\\b.+\\b\\s*?)+\\s*\\(?:(?<amount>[0-9]+)\\s*\\b(?<unit>.+)\\b\\)\\s*$"@
}

/// An ingredient named without an amount.
pub open spec fn without_amount_pattern() -> Seq<char> {
    "^\\s*(\\S+\\s*?)+\\s*$"@
}

/// A step with a word in bold markdown.
pub open spec fn bold_markdown_pattern() -> Seq<char> {
    "(?<left>.*)\\*\\*(?<inner>\\S+)\\*\\*(?<right>.*)"@
}

/// The groups read from an ingredient with an amount.
pub open spec fn amount_groups() -> Seq<Seq<char>> {
    seq!["name"@, "unit"@, "amount"@]
}

/// The groups read from a bold markdown match.
pub open spec fn bold_groups() -> Seq<Seq<char>> {
    seq!["left"@, "inner"@, "right"@]
}

/// The unit and amount recorded for an ingredient without an amount.
pub open spec fn no_amount() -> Seq<char> {
    "none"@
}

// ---------------------------------------------------------------------------
// Extraction rules
// ---------------------------------------------------------------------------

/// Trimmed, without line breaks, with runs of spaces shortened.
pub open spec fn cleaned(s: Seq<char>) -> Seq<char> {
    collapsed_spaces(without_line_breaks(trimmed(s)))
}

/// The three groups of a match, when all three took part.
pub open spec fn three_groups(c: CaptureView) -> Option<(Seq<char>, Seq<char>, Seq<char>)> {
    if c.groups.len() == 3 && c.groups[0] is Some && c.groups[1] is Some && c.groups[2] is Some {
        Some((c.groups[0]->0, c.groups[1]->0, c.groups[2]->0))
    } else {
        None
    }
}

/// The ingredient described by one trimmed item of an ingredient paragraph.
pub open spec fn ingredient_of(item: Seq<char>) -> Option<IngredientView> {
    match regex_captures(amount_in_brackets_pattern(), item, amount_groups()) {
        Some(c) if three_groups(c) is Some => {
            let g = three_groups(c)->0;
            Some(IngredientView { name: g.0, unit: g.1, amount: g.2 })
        },
        _ => match regex_captures(without_amount_pattern(), item, Seq::empty()) {
            Some(c) => Some(IngredientView { name: c.matched, unit: no_amount(), amount: no_amount() }),
            None => None,
        },
    }
}

/// The ingredients described by the items, in order, skipping items that
/// describe none.
pub open spec fn ingredients_of_items(items: Seq<Seq<char>>) -> Seq<IngredientView>
    decreases items.len(),
{
    if items.len() == 0 {
        Seq::empty()
    } else {
        let rest = ingredients_of_items(items.drop_last());
        match ingredient_of(trimmed(items.last())) {
            Some(i) => rest.push(i),
            None => rest,
        }
    }
}

/// The ingredients of a cleaned paragraph: what follows its first `:` (or the
/// whole paragraph), split at `,`.
pub open spec fn paragraph_ingredients(p: Seq<char>) -> Seq<IngredientView> {
    let list = match after_first(p, ':') {
        Some(rest) => rest,
        None => p,
    };
    ingredients_of_items(split_on(list, ','))
}

/// Scans the ingredient paragraphs from `index` up to 9: the heading paragraph
/// is skipped once, the kitchen paragraph ends the list and gives its index,
/// every other paragraph contributes its ingredients. The index is `0` when no
/// kitchen paragraph is met; `Err` when an XPath evaluation fails.
pub open spec fn ingredients_scan(html: Seq<char>, index: nat, started: bool) -> Result<
    (nat, Seq<IngredientView>),
    (),
>
    decreases 10 - index,
{
    if index >= 10 {
        Ok((0, Seq::empty()))
    } else {
        match xpath_string(html, paragraph_xpath(index)) {
            None => Err(()),
            Some(raw) => {
                let p = trimmed(raw);
                let low = lowercase(p);
                if !started && low == ingredients_heading() {
                    ingredients_scan(html, index + 1, true)
                } else if low == kitchen_heading() {
                    Ok((index, Seq::empty()))
                } else {
                    match ingredients_scan(html, index + 1, started) {
                        Err(()) => Err(()),
                        Ok((last, rest)) => Ok(
                            (last, paragraph_ingredients(collapsed_spaces(without_line_breaks(p)))
                                + rest),
                        ),
                    }
                }
            },
        }
    }
}

/// A step with its first bold markdown match unwrapped: the text before the
/// match and the `left`, `inner` and `right` groups in place of the match.
pub open spec fn without_bold(step: Seq<char>) -> Seq<char> {
    match regex_captures(bold_markdown_pattern(), step, bold_groups()) {
        Some(c) if three_groups(c) is Some => {
            let g = three_groups(c)->0;
            c.before + g.0 + g.1 + g.2 + c.after
        },
        _ => step,
    }
}

/// Scans the step paragraphs from `index` up to 99. Paragraphs are skipped up
/// to the one that matches "как готовить"; after it every cleaned paragraph is
/// a step, one that starts with a lower-case letter continues the previous
/// step, until an empty paragraph or one of the closing remarks.
pub open spec fn steps_scan(html: Seq<char>, index: nat, started: bool, steps: Seq<Seq<char>>) -> Result<
    Seq<Seq<char>>,
    (),
>
    decreases 100 - index,
{
    if index >= 100 {
        Ok(steps)
    } else {
        match xpath_string(html, paragraph_xpath(index)) {
            None => Err(()),
            Some(raw) => {
                let step = cleaned(raw);
                if !started {
                    steps_scan(
                        html,
                        index + 1,
                        regex_captures(how_to_cook_pattern(), lowercase(step), Seq::empty()) is Some,
                        steps,
                    )
                } else {
                    let low = lowercase(step);
                    if has_prefix(low, steps_end_first()) || has_prefix(low, steps_end_second())
                        || trimmed(step).len() == 0 {
                        Ok(steps)
                    } else if is_lowercase_letter(step[0]) {
                        if steps.len() > 0 {
                            steps_scan(
                                html,
                                index + 1,
                                true,
                                steps.update(steps.len() - 1, steps.last() + seq![' '] + step),
                            )
                        } else {
                            steps_scan(html, index + 1, true, steps.push(step))
                        }
                    } else {
                        steps_scan(html, index + 1, true, steps.push(without_bold(step)))
                    }
                }
            },
        }
    }
}

/// The value of the last `src` attribute among `attrs`.
pub open spec fn last_src_in(attrs: Seq<(Seq<char>, Seq<char>)>) -> Option<Seq<char>>
    decreases attrs.len(),
{
    if attrs.len() == 0 {
        None
    } else if attrs.last().0 == "src"@ {
        Some(attrs.last().1)
    } else {
        last_src_in(attrs.drop_last())
    }
}

/// The value of the last `src` attribute of the element nodes, in order.
pub open spec fn last_src(nodes: Seq<Option<Seq<(Seq<char>, Seq<char>)>>>) -> Option<Seq<char>>
    decreases nodes.len(),
{
    if nodes.len() == 0 {
        None
    } else {
        match nodes.last() {
            Some(attrs) => match last_src_in(attrs) {
                Some(v) => Some(v),
                None => last_src(nodes.drop_last()),
            },
            None => last_src(nodes.drop_last()),
        }
    }
}

/// The picture link of a page: the last `src` of the picture elements; `Err`
/// when the XPath evaluation fails.
pub open spec fn image_link(html: Seq<char>) -> Result<Option<Seq<char>>, ()> {
    match xpath_element_attributes(html, image_xpath()) {
        None => Err(()),
        Some(None) => Ok(None),
        Some(Some(nodes)) => Ok(last_src(nodes)),
    }
}

/// The recipe on the page `html`, fetched from `url` under task `id` of issue
/// `issue_id`: `Ok(None)` when the title, the ingredients or the steps are
/// missing, `Err` when an XPath evaluation fails before that is known.
pub open spec fn recipe_of(html: Seq<char>, id: u64, issue_id: u64, url: Seq<char>) -> Result<
    Option<RecipeView>,
    (),
> {
    match xpath_string(html, title_xpath()) {
        None => Err(()),
        Some(raw) => {
            let title = cleaned(raw);
            if title.len() == 0 {
                Ok(None)
            } else {
                match image_link(html) {
                    Err(()) => Err(()),
                    Ok(image) => match ingredients_scan(html, 1, false) {
                        Err(()) => Err(()),
                        Ok((last, ingredients)) => if ingredients.len() == 0 {
                            Ok(None)
                        } else {
                            match steps_scan(html, last, false, Seq::empty()) {
                                Err(()) => Err(()),
                                Ok(steps) => if steps.len() == 0 {
                                    Ok(None)
                                } else {
                                    Ok(
                                        Some(
                                            RecipeView {
                                                id,
                                                issue_id,
                                                url,
                                                title,
                                                ingredients,
                                                steps,
                                                image_url: image,
                                            },
                                        ),
                                    )
                                },
                            }
                        },
                    },
                }
            }
        },
    }
}


// ---------------------------------------------------------------------------
// Extraction
// ---------------------------------------------------------------------------

/// Reads a recipe from the pages of the Elementaree recipe site.
pub struct ElementareeRecipeParser;

fn cleaned_chars(v: &[char]) -> (r: Vec<char>)
    ensures
        r@ == cleaned(v@),
{
    let t = trim_chars(v);
    let w = remove_line_breaks(&t);
    collapse_spaces(&w)
}

fn names3(a: &str, b: &str, c: &str) -> (r: Vec<String>)
    ensures
        r.deep_view() == seq![a@, b@, c@],
{
    let mut r: Vec<String> = Vec::new();
    r.push(a.to_owned());
    r.push(b.to_owned());
    r.push(c.to_owned());
    assert(r.deep_view() =~= seq![a@, b@, c@]);
    r
}

fn no_names() -> (r: Vec<String>)
    ensures
        r.deep_view() == Seq::<Seq<char>>::empty(),
{
    let r: Vec<String> = Vec::new();
    assert(r.deep_view() =~= Seq::<Seq<char>>::empty());
    r
}

/// The three groups of a capture, when all three took part.
fn take_three_groups(c: &Capture) -> (r: Option<(String, String, String)>)
    ensures
        match r {
            Some(g) => three_groups(c@) == Some((g.0@, g.1@, g.2@)),
            None => three_groups(c@) is None,
        },
{
    if c.groups.len() != 3 {
        return None;
    }
    let ghost g = c.groups.deep_view();
    assert(g[0] == c.groups@[0].deep_view());
    assert(g[1] == c.groups@[1].deep_view());
    assert(g[2] == c.groups@[2].deep_view());
    match (&c.groups[0], &c.groups[1], &c.groups[2]) {
        (Some(a), Some(b), Some(d)) => Some((a.clone(), b.clone(), d.clone())),
        _ => None,
    }
}

fn path_string(v: &[char]) -> (r: String)
    ensures
        r@ == v@,
{
    string_of(v)
}

/// The XPath of paragraph number `index`.
fn paragraph_xpath_of(index: usize) -> (r: String)
    ensures
        r@ == paragraph_xpath(index as nat),
{
    let mut v = chars_of("/html/body/div[2]/section/div[3]/div/div[5]/div[1]/div[1]/p[");
    let d = decimal_chars(index);
    append_chars(&mut v, &d);
    v.push(']');
    path_string(&v)
}

/// The ingredient described by one trimmed item.
fn ingredient_of_item(item: &str) -> (r: Option<Ingredient>)
    ensures
        match r {
            Some(i) => ingredient_of(item@) == Some(i@),
            None => ingredient_of(item@) is None,
        },
{
    let names = names3("name", "unit", "amount");
    let with_amount = regex_first_captures(
        "^\\s*(?<name>\\b.+\\b\\s*?)+\\s*\\(?:(?<amount>[0-9]+)\\s*\\b(?<unit>.+)\\b\\)\\s*$",
        item,
        &names,
    );
    let mut three: Option<(String, String, String)> = None;
    match &with_amount {
        Some(c) => {
            three = take_three_groups(c);
        },
        None => {},
    }
    match three {
        Some(g) => Some(Ingredient { name: g.0, unit: g.1, amount: g.2 }),
        None => {
            let none = no_names();
            match regex_first_captures("^\\s*(\\S+\\s*?)+\\s*$", item, &none) {
                Some(c) => Some(
                    Ingredient {
                        name: c.matched,
                        unit: "none".to_owned(),
                        amount: "none".to_owned(),
                    },
                ),
                None => None,
            }
        },
    }
}

/// The ingredients of a cleaned paragraph.
fn paragraph_ingredients_of(p: &[char]) -> (r: Vec<Ingredient>)
    ensures
        ingredients_view(r@) == paragraph_ingredients(p@),
{
    let list = match after_first_char(p, ':') {
        Some(rest) => rest,
        None => slice_all(p),
    };
    let items = split_chars(&list, ',');
    let ghost iv = split_on(list@, ',');
    let mut out: Vec<Ingredient> = Vec::new();
    let mut k: usize = 0;
    assert(iv.take(0) =~= Seq::<Seq<char>>::empty());
    assert(ingredients_view(out@) =~= Seq::<IngredientView>::empty());
    while k < items.len()
        invariant
            k <= items@.len(),
            items@.len() == iv.len(),
            forall|j: int| 0 <= j < items@.len() ==> #[trigger] items@[j]@ == iv[j],
            ingredients_view(out@) == ingredients_of_items(iv.take(k as int)),
        decreases items.len() - k,
    {
        assert(iv.take(k + 1).drop_last() == iv.take(k as int));
        assert(iv.take(k + 1).last() == items@[k as int]@);
        let t = trim_chars(&items[k]);
        let ts = string_of(&t);
        let ghost before = out@;
        match ingredient_of_item(ts.as_str()) {
            Some(i) => {
                out.push(i);
                assert(ingredients_view(out@) =~= ingredients_view(before).push(out@[out@.len() - 1]@));
            },
            None => {},
        }
        k = k + 1;
    }
    assert(iv.take(items@.len() as int) == iv);
    out
}

fn slice_all(p: &[char]) -> (r: Vec<char>)
    ensures
        r@ == p@,
{
    let mut r: Vec<char> = Vec::new();
    append_chars(&mut r, p);
    r
}

/// `acc` in front of the ingredients of a scan result.
pub open spec fn after_ingredients(
    acc: Seq<IngredientView>,
    r: Result<(nat, Seq<IngredientView>), ()>,
) -> Result<(nat, Seq<IngredientView>), ()> {
    match r {
        Ok((last, rest)) => Ok((last, acc + rest)),
        Err(()) => Err(()),
    }
}

/// Reads the ingredient paragraphs: the index of the paragraph that ends the
/// list (0 when none does) and the ingredients; `Err` when an XPath evaluation
/// fails.
fn parse_ingredients(html: &str) -> (r: Result<(usize, Vec<Ingredient>), ()>)
    ensures
        match r {
            Ok((last, v)) => ingredients_scan(html@, 1, false) == Ok::<
                (nat, Seq<IngredientView>),
                (),
            >((last as nat, ingredients_view(v@))),
            Err(()) => ingredients_scan(html@, 1, false) is Err,
        },
{
    let mut parsed: Vec<Ingredient> = Vec::new();
    let mut started = false;
    let mut index: usize = 1;
    let heading = chars_of("вам понадобится");
    let kitchen = chars_of("на вашей кухне");
    assert(ingredients_view(parsed@) =~= Seq::<IngredientView>::empty());
    proof {
        let r = ingredients_scan(html@, 1, false);
        match r {
            Ok((l, rest)) => {
                assert(Seq::<IngredientView>::empty() + rest =~= rest);
                assert(after_ingredients(ingredients_view(parsed@), r) == r);
            },
            Err(u) => {
                assert(u == ());
                assert(after_ingredients(ingredients_view(parsed@), r) == r);
            },
        }
    }
    while index < 10
        invariant
            1 <= index <= 10,
            heading@ == ingredients_heading(),
            kitchen@ == kitchen_heading(),
            ingredients_scan(html@, 1, false) == after_ingredients(
                ingredients_view(parsed@),
                ingredients_scan(html@, index as nat, started),
            ),
        decreases 10 - index,
    {
        let xpath = paragraph_xpath_of(index);
        let raw = match xpath_string_value(html, xpath.as_str()) {
            Some(raw) => raw,
            None => {
                return Err(());
            },
        };
        let rv = chars_of(raw.as_str());
        let p = trim_chars(&rv);
        let ps = string_of(&p);
        let low = chars_of(lowercase_of(ps.as_str()).as_str());
        if !started && chars_equal(&low, &heading) {
            started = true;
        } else if chars_equal(&low, &kitchen) {
            assert(ingredients_view(parsed@) + Seq::<IngredientView>::empty() =~= ingredients_view(
                parsed@,
            ));
            return Ok((index, parsed));
        } else {
            let w = remove_line_breaks(&p);
            let c = collapse_spaces(&w);
            let found = paragraph_ingredients_of(&c);
            let ghost before = ingredients_view(parsed@);
            let mut k: usize = 0;
            let mut found = found;
            let ghost fv = ingredients_view(found@);
            let mut moved: Vec<Ingredient> = Vec::new();
            // keep the order of the paragraph's ingredients
            while k < found.len()
                invariant
                    k <= found@.len(),
                    fv == ingredients_view(found@),
                    ingredients_view(parsed@) == before + fv.take(k as int),
                decreases found.len() - k,
            {
                let ghost pv = ingredients_view(parsed@);
                let ing = Ingredient {
                    name: found[k].name.clone(),
                    unit: found[k].unit.clone(),
                    amount: found[k].amount.clone(),
                };
                parsed.push(ing);
                assert(ingredients_view(parsed@) =~= pv.push(fv[k as int]));
                assert(fv.take(k + 1) =~= fv.take(k as int).push(fv[k as int]));
                k = k + 1;
            }
            assert(fv.take(found@.len() as int) == fv);
            proof {
                match ingredients_scan(html@, index as nat + 1, started) {
                    Ok((l, rest)) => {
                        assert(before + (fv + rest) =~= (before + fv) + rest);
                    },
                    Err(()) => {},
                }
            }
        }
        index = index + 1;
    }
    assert(ingredients_view(parsed@) + Seq::<IngredientView>::empty() =~= ingredients_view(
        parsed@,
    ));
    Ok((0, parsed))
}

proof fn lemma_infix_keeps_no_line_break(part: Seq<char>, whole: Seq<char>)
    requires
        is_infix(part, whole),
        no_line_break(whole),
    ensures
        no_line_break(part),
{
    let i = choose|i: int| 0 <= i && i + part.len() <= whole.len() && #[trigger] whole.subrange(i, i + part.len()) == part;
    assert forall|j: int| 0 <= j < part.len() implies !is_line_break(#[trigger] part[j]) by {
        assert(part[j] == whole[i + j]);
    }
}

proof fn lemma_concat_keeps_no_line_break(a: Seq<char>, b: Seq<char>)
    requires
        no_line_break(a),
        no_line_break(b),
    ensures
        no_line_break(a + b),
{
    assert forall|j: int| 0 <= j < (a + b).len() implies !is_line_break(#[trigger] (a + b)[j]) by {
        if j < a.len() {
            assert((a + b)[j] == a[j]);
        } else {
            assert((a + b)[j] == b[j - a.len()]);
        }
    }
}

proof fn lemma_parts_keep_no_line_break(a: Seq<char>, b: Seq<char>, c: Seq<char>)
    requires
        no_line_break(a + b + c),
    ensures
        no_line_break(a),
        no_line_break(b),
        no_line_break(c),
{
    let w = a + b + c;
    assert forall|j: int| 0 <= j < a.len() implies !is_line_break(#[trigger] a[j]) by {
        assert(w[j] == a[j]);
    }
    assert forall|j: int| 0 <= j < b.len() implies !is_line_break(#[trigger] b[j]) by {
        assert(w[a.len() + j] == b[j]);
    }
    assert forall|j: int| 0 <= j < c.len() implies !is_line_break(#[trigger] c[j]) by {
        assert(w[a.len() + b.len() + j] == c[j]);
    }
}

/// Unwrapping a bold match of a step without line breaks leaves none: the
/// pieces put together all lie within the step.
proof fn lemma_unwrapped_has_no_line_break(step: Seq<char>, c: CaptureView)
    requires
        c.before + c.matched + c.after == step,
        forall|k: int| 0 <= k < c.groups.len() ==> (#[trigger] c.groups[k] matches Some(g)
            ==> is_infix(g, c.matched)),
    ensures
        no_line_break(step) ==> (three_groups(c) matches Some(g) ==> no_line_break(
            c.before + g.0 + g.1 + g.2 + c.after,
        )),
{
    if no_line_break(step) && three_groups(c) is Some {
        let g = three_groups(c)->0;
        lemma_parts_keep_no_line_break(c.before, c.matched, c.after);
        assert(c.groups[0] matches Some(x) && x == g.0);
        assert(c.groups[1] matches Some(x) && x == g.1);
        assert(c.groups[2] matches Some(x) && x == g.2);
        lemma_infix_keeps_no_line_break(g.0, c.matched);
        lemma_infix_keeps_no_line_break(g.1, c.matched);
        lemma_infix_keeps_no_line_break(g.2, c.matched);
        lemma_concat_keeps_no_line_break(c.before, g.0);
        lemma_concat_keeps_no_line_break(c.before + g.0, g.1);
        lemma_concat_keeps_no_line_break(c.before + g.0 + g.1, g.2);
        lemma_concat_keeps_no_line_break(c.before + g.0 + g.1 + g.2, c.after);
    }
}

/// The step with its first bold markdown match unwrapped.
fn unwrap_bold(step: &str) -> (r: String)
    ensures
        r@ == without_bold(step@),
        no_line_break(step@) ==> no_line_break(r@),
{
    let names = names3("left", "inner", "right");
    match regex_first_captures("(?<left>.*)\\*\\*(?<inner>\\S+)\\*\\*(?<right>.*)", step, &names) {
        Some(c) => match take_three_groups(&c) {
            Some(g) => {
                proof {
                    lemma_unwrapped_has_no_line_break(step@, c@);
                }
                let mut v = chars_of(c.before.as_str());
                append_chars(&mut v, &chars_of(g.0.as_str()));
                append_chars(&mut v, &chars_of(g.1.as_str()));
                append_chars(&mut v, &chars_of(g.2.as_str()));
                append_chars(&mut v, &chars_of(c.after.as_str()));
                string_of(&v)
            },
            None => step.to_owned(),
        },
        None => step.to_owned(),
    }
}

/// Reads the cooking steps from paragraph `start` on; `Err` when an XPath
/// evaluation fails.
fn parse_steps(html: &str, start: usize) -> (r: Result<Vec<String>, ()>)
    ensures
        match r {
            Ok(v) => steps_scan(html@, start as nat, false, Seq::empty()) == Ok::<
                Seq<Seq<char>>,
                (),
            >(strings_view(v@)),
            Err(u) => steps_scan(html@, start as nat, false, Seq::empty()) is Err,
        },
        r matches Ok(v) ==> (forall|j: int| 0 <= j < v@.len() ==> no_line_break(#[trigger] v@[j]@))
            && (v@.len() + start <= 100 || v@.len() == 0),
{
    let mut steps: Vec<String> = Vec::new();
    let mut started = false;
    let mut index: usize = start;
    let end_first = chars_of("если к вам попал овощ не лучшего качества");
    let end_second = chars_of("корректируйте время приготовления");
    assert(strings_view(steps@) =~= Seq::<Seq<char>>::empty());
    while index < 100
        invariant
            start <= index,
            end_first@ == steps_end_first(),
            end_second@ == steps_end_second(),
            steps_scan(html@, start as nat, false, Seq::empty()) == steps_scan(
                html@,
                index as nat,
                started,
                strings_view(steps@),
            ),
            forall|j: int| 0 <= j < steps@.len() ==> no_line_break(#[trigger] steps@[j]@),
            steps@.len() <= index - start,
            start <= 100 ==> index <= 100,
        decreases 100 - index,
    {
        let ghost sv = strings_view(steps@);
        let xpath = paragraph_xpath_of(index);
        let raw = match xpath_string_value(html, xpath.as_str()) {
            Some(raw) => raw,
            None => {
                return Err(());
            },
        };
        let rv = chars_of(raw.as_str());
        let step = cleaned_chars(&rv);
        proof {
            law_cleaned_text(trimmed(rv@));
        }
        let step_s = string_of(&step);
        let low = chars_of(lowercase_of(step_s.as_str()).as_str());
        let ghost before_steps = steps@;
        if !started {
            let none = no_names();
            let hit = regex_first_captures("как готовить", lowercase_of(step_s.as_str()).as_str(), &none);
            started = hit.is_some();
        } else {
            let t = trim_chars(&step);
            if starts_with(&low, &end_first) || starts_with(&low, &end_second) || t.len() == 0 {
                return Ok(steps);
            }
            proof {
                lemma_trimmed_len(step@);
            }
            if char_is_lowercase(step[0]) {
                let n = steps.len();
                if n > 0 {
                    let mut last = chars_of(steps[n - 1].as_str());
                    assert(last@ == sv.last());
                    last.push(' ');
                    append_chars(&mut last, &step);
                    let joined = string_of(&last);
                    assert(joined@ == sv.last() + seq![' '] + step@);
                    proof {
                        assert(no_line_break(before_steps[n - 1]@));
                        assert(no_line_break(seq![' ']));
                        lemma_concat_keeps_no_line_break(sv.last(), seq![' ']);
                        lemma_concat_keeps_no_line_break(sv.last() + seq![' '], step@);
                    }
                    steps.set(n - 1, joined);
                    assert(forall|j: int| 0 <= j < steps@.len() ==> no_line_break(#[trigger] steps@[j]@) ) by {
                        assert forall|j: int| 0 <= j < steps@.len() implies no_line_break(#[trigger] steps@[j]@) by {
                            if j != n - 1 {
                                assert(steps@[j] == before_steps[j]);
                            }
                        }
                    }
                    assert(strings_view(steps@) =~= sv.update(
                        sv.len() - 1,
                        sv.last() + seq![' '] + step@,
                    ));
                } else {
                    steps.push(step_s);
                    assert(strings_view(steps@) =~= sv.push(step@));
                }
            } else {
                let plain = unwrap_bold(step_s.as_str());
                steps.push(plain);
                assert(strings_view(steps@) =~= sv.push(without_bold(step@)));
            }
        }
        index = index + 1;
    }
    Ok(steps)
}

/// The cleaned title; `None` when the XPath evaluation fails.
fn parse_title(html: &str) -> (r: Option<String>)
    ensures
        match r {
            Some(t) => xpath_string(html@, title_xpath()) matches Some(raw) && t@ == cleaned(raw),
            None => xpath_string(html@, title_xpath()) is None,
        },
{
    match xpath_string_value(html, "/html/body/div[2]/section/div[2]/h2") {
        Some(raw) => {
            let rv = chars_of(raw.as_str());
            let t = cleaned_chars(&rv);
            Some(string_of(&t))
        },
        None => None,
    }
}

/// The value of the last `src` attribute among the element nodes.
fn last_src_of(nodes: &Vec<Option<Vec<(String, String)>>>) -> (r: Option<String>)
    ensures
        r.deep_view() == last_src(nodes.deep_view()),
{
    let ghost nv = nodes.deep_view();
    let src = chars_of("src");
    let mut image: Option<String> = None;
    let mut i: usize = 0;
    assert(nv.take(0) =~= Seq::<Option<Seq<(Seq<char>, Seq<char>)>>>::empty());
    while i < nodes.len()
        invariant
            i <= nodes@.len(),
            nv == nodes.deep_view(),
            src@ == "src"@,
            image.deep_view() == last_src(nv.take(i as int)),
        decreases nodes.len() - i,
    {
        assert(nv.take(i + 1).drop_last() == nv.take(i as int));
        assert(nv.take(i + 1).last() == nodes@[i as int].deep_view());
        match &nodes[i] {
            Some(attrs) => {
                let ghost av = attrs.deep_view();
                let ghost prev = image.deep_view();
                let mut j: usize = 0;
                assert(av.take(0) =~= Seq::<(Seq<char>, Seq<char>)>::empty());
                while j < attrs.len()
                    invariant
                        j <= attrs@.len(),
                        av == attrs.deep_view(),
                        src@ == "src"@,
                        image.deep_view() == match last_src_in(av.take(j as int)) {
                            Some(v) => Some(v),
                            None => prev,
                        },
                    decreases attrs.len() - j,
                {
                    assert(av.take(j + 1).drop_last() == av.take(j as int));
                    assert(av.take(j + 1).last() == attrs@[j as int].deep_view());
                    let name = chars_of(attrs[j].0.as_str());
                    if chars_equal(&name, &src) {
                        image = Some(attrs[j].1.clone());
                    }
                    j = j + 1;
                }
                assert(av.take(attrs@.len() as int) == av);
            },
            None => {},
        }
        i = i + 1;
    }
    assert(nv.take(nodes@.len() as int) == nv);
    image
}

/// The picture link; `Err` when the XPath evaluation fails.
fn parse_image_link(html: &str) -> (r: Result<Option<String>, ()>)
    ensures
        match r {
            Ok(o) => image_link(html@) == Ok::<Option<Seq<char>>, ()>(o.deep_view()),
            Err(u) => image_link(html@) is Err,
        },
{
    match xpath_attributes(html, "/html/body/div[2]/section/div[3]/div/div[1]/picture/img") {
        None => Err(()),
        Some(None) => Ok(None),
        Some(Some(nodes)) => Ok(last_src_of(&nodes)),
    }
}

impl RecipeParser for ElementareeRecipeParser {
    /// The recipe on the page of `task`: `Ok(None)` when the page lacks a
    /// title, ingredients or steps; `Err` when an XPath evaluation fails
    /// before that is known. A recipe has at most 100 steps, none of them
    /// holding a line break.
    fn parse_recipe(task: &Task) -> (r: Result<Option<Recipe>, RecipeParsingError>)
        ensures
            match r {
                Ok(Some(recipe)) => recipe_of(
                    task.document_string@,
                    task.id,
                    task.issue_id,
                    task.url@,
                ) == Ok::<Option<RecipeView>, ()>(Some(recipe@)),
                Ok(None) => recipe_of(task.document_string@, task.id, task.issue_id, task.url@)
                    == Ok::<Option<RecipeView>, ()>(None),
                Err(e) => recipe_of(
                    task.document_string@,
                    task.id,
                    task.issue_id,
                    task.url@,
                ) is Err && e.error_desc@ == "XPath evaluation failed"@,
            },
            r matches Ok(Some(recipe)) ==> recipe.steps@.len() <= 100 && forall|j: int|
                0 <= j < recipe.steps@.len() ==> no_line_break(#[trigger] recipe.steps@[j]@),
    {
        let html = task.document_string.as_str();
        let title = match parse_title(html) {
            Some(t) => t,
            None => {
                return Err(xpath_failure());
            },
        };
        if title.as_str().is_empty() {
            return Ok(None);
        }
        let image_url = match parse_image_link(html) {
            Ok(o) => o,
            Err(_) => {
                return Err(xpath_failure());
            },
        };
        let (last, ingredients) = match parse_ingredients(html) {
            Ok(p) => p,
            Err(_) => {
                return Err(xpath_failure());
            },
        };
        if ingredients.len() == 0 {
            return Ok(None);
        }
        let steps = match parse_steps(html, last) {
            Ok(v) => v,
            Err(_) => {
                return Err(xpath_failure());
            },
        };
        if steps.len() == 0 {
            return Ok(None);
        }
        let recipe = Recipe {
            id: task.id,
            issue_id: task.issue_id,
            url: task.url.clone(),
            title,
            ingredients,
            steps,
            image_url,
        };
        proof {
            assert(recipe@.image_url == image_url.deep_view());
        }
        Ok(Some(recipe))
    }
}

fn xpath_failure() -> (e: RecipeParsingError)
    ensures
        e.error_desc@ == "XPath evaluation failed"@,
{
    RecipeParsingError { error_desc: "XPath evaluation failed".to_owned() }
}

/// A recipe read from a page has a non-empty title without line breaks or
/// double spaces, at least one ingredient and at least one step, and carries
/// the task's id, issue and URL.
pub proof fn law_recipe_is_complete(html: Seq<char>, id: u64, issue_id: u64, url: Seq<char>)
    ensures
        recipe_of(html, id, issue_id, url) matches Ok(Some(r)) ==> {
            &&& r.title.len() > 0
            &&& no_line_break(r.title)
            &&& no_double_space(r.title)
            &&& r.ingredients.len() > 0
            &&& r.steps.len() > 0
            &&& r.id == id
            &&& r.issue_id == issue_id
            &&& r.url == url
        },
{
    match xpath_string(html, title_xpath()) {
        Some(raw) => {
            law_cleaned_text(trimmed(raw));
        },
        None => {},
    }
}

/// The ingredient scan reads no paragraph after the kitchen paragraph that
/// ends it: a page that holds the same paragraphs from `index` up to that one
/// gives the same ingredients and the same end, whatever follows.
pub proof fn law_ingredients_end_at_kitchen(
    html: Seq<char>,
    other: Seq<char>,
    index: nat,
    started: bool,
)
    requires
        ingredients_scan(html, index, started) is Ok,
        ingredients_scan(html, index, started)->Ok_0.0 > 0,
        forall|j: nat|
            index <= j <= ingredients_scan(html, index, started)->Ok_0.0 ==> #[trigger] xpath_string(
                html,
                paragraph_xpath(j),
            ) == xpath_string(other, paragraph_xpath(j)),
    ensures
        index <= ingredients_scan(html, index, started)->Ok_0.0,
        ingredients_scan(other, index, started) == ingredients_scan(html, index, started),
    decreases 10 - index,
{
    let k = ingredients_scan(html, index, started)->Ok_0.0;
    if index < 10 {
        match xpath_string(html, paragraph_xpath(index)) {
            None => {},
            Some(raw) => {
                let p = trimmed(raw);
                let low = lowercase(p);
                if !started && low == ingredients_heading() {
                    law_ingredients_end_at_kitchen(html, other, index + 1, true);
                    assert(xpath_string(html, paragraph_xpath(index)) == xpath_string(
                        other,
                        paragraph_xpath(index),
                    ));
                } else if low == kitchen_heading() {
                    assert(xpath_string(html, paragraph_xpath(index)) == xpath_string(
                        other,
                        paragraph_xpath(index),
                    ));
                } else {
                    law_ingredients_end_at_kitchen(html, other, index + 1, started);
                    assert(xpath_string(html, paragraph_xpath(index)) == xpath_string(
                        other,
                        paragraph_xpath(index),
                    ));
                }
            },
        }
    }
}

/// A paragraph of ingredients lists them separated by `,`: after its first
/// `:` when it has one (a label such as "Для супа:"), and otherwise the whole
/// paragraph is the list.
pub proof fn law_paragraph_lists_items(p: Seq<char>)
    ensures
        first_index_of(p, ':') is None ==> paragraph_ingredients(p) == ingredients_of_items(
            split_on(p, ','),
        ),
        first_index_of(p, ':') matches Some(i) ==> paragraph_ingredients(p) == ingredients_of_items(
            split_on(p.skip(i + 1), ','),
        ),
{
}

/// Every item that describes an ingredient gives it, in the order of the
/// items: when each trimmed item describes one, there are as many ingredients
/// as items, the one of item `i` in place `i`.
pub proof fn law_each_item_gives_its_ingredient(items: Seq<Seq<char>>)
    requires
        forall|i: int| 0 <= i < items.len() ==> (#[trigger] ingredient_of(trimmed(items[i]))) is Some,
    ensures
        ingredients_of_items(items).len() == items.len(),
        forall|i: int|
            0 <= i < items.len() ==> #[trigger] ingredients_of_items(items)[i] == ingredient_of(
                trimmed(items[i]),
            )->0,
    decreases items.len(),
{
    if items.len() > 0 {
        let d = items.drop_last();
        assert forall|i: int| 0 <= i < d.len() implies (#[trigger] ingredient_of(trimmed(d[i]))) is Some by {
            assert(d[i] == items[i]);
        }
        law_each_item_gives_its_ingredient(d);
        assert(ingredient_of(trimmed(items[items.len() - 1])) is Some);
        assert forall|i: int| 0 <= i < items.len() implies #[trigger] ingredients_of_items(items)[i]
            == ingredient_of(trimmed(items[i]))->0 by {
            if i < d.len() {
                assert(d[i] == items[i]);
                assert(ingredients_of_items(d)[i] == ingredient_of(trimmed(d[i]))->0);
            }
        }
    }
}

/// An item with an amount and unit in brackets, such as "salt (:5 g)", gives
/// the ingredient of that name, unit and amount; an item that has none but
/// matches the pattern of a bare name gives that name with "none" as unit and
/// amount.
pub proof fn law_item_ingredient(item: Seq<char>)
    ensures
        (regex_captures(
            "^\\s*(?<name>\\b.+\\b\\s*?)+\\s*\\(?:(?<amount>[0-9]+)\\s*\\b(?<unit>.+)\\b\\)\\s*$"@,
            item,
            seq!["name"@, "unit"@, "amount"@],
        ) matches Some(c) && c.groups.len() == 3 && c.groups[0] is Some && c.groups[1] is Some
            && c.groups[2] is Some) ==> ingredient_of(item) == Some(
            IngredientView {
                name: regex_captures(
                    "^\\s*(?<name>\\b.+\\b\\s*?)+\\s*\\(?:(?<amount>[0-9]+)\\s*\\b(?<unit>.+)\\b\\)\\s*$"@,
                    item,
                    seq!["name"@, "unit"@, "amount"@],
                )->0.groups[0]->0,
                unit: regex_captures(
                    "^\\s*(?<name>\\b.+\\b\\s*?)+\\s*\\(?:(?<amount>[0-9]+)\\s*\\b(?<unit>.+)\\b\\)\\s*$"@,
                    item,
                    seq!["name"@, "unit"@, "amount"@],
                )->0.groups[1]->0,
                amount: regex_captures(
                    "^\\s*(?<name>\\b.+\\b\\s*?)+\\s*\\(?:(?<amount>[0-9]+)\\s*\\b(?<unit>.+)\\b\\)\\s*$"@,
                    item,
                    seq!["name"@, "unit"@, "amount"@],
                )->0.groups[2]->0,
            },
        ),
        regex_captures(
            "^\\s*(?<name>\\b.+\\b\\s*?)+\\s*\\(?:(?<amount>[0-9]+)\\s*\\b(?<unit>.+)\\b\\)\\s*$"@,
            item,
            seq!["name"@, "unit"@, "amount"@],
        ) is None ==> match regex_captures("^\\s*(\\S+\\s*?)+\\s*$"@, item, Seq::empty()) {
            Some(c) => ingredient_of(item) == Some(
                IngredientView { name: c.matched, unit: "none"@, amount: "none"@ },
            ),
            None => ingredient_of(item) is None,
        },
{
}

/// Once the cooking steps have started, a paragraph whose cleaned text,
/// lower-cased, starts with one of the closing remarks "если к вам попал овощ
/// не лучшего качества" or "корректируйте время приготовления", or whose
/// cleaned text is blank, ends the steps: neither it nor any later paragraph
/// adds to them.
pub proof fn law_closing_remark_ends_steps(
    html: Seq<char>,
    index: nat,
    raw: Seq<char>,
    steps: Seq<Seq<char>>,
)
    requires
        index < 100,
        xpath_string(html, paragraph_xpath(index)) == Some(raw),
        has_prefix(lowercase(cleaned(raw)), "если к вам попал овощ не лучшего качества"@)
            || has_prefix(lowercase(cleaned(raw)), "корректируйте время приготовления"@)
            || trimmed(cleaned(raw)).len() == 0,
    ensures
        steps_scan(html, index, true, steps) == Ok::<Seq<Seq<char>>, ()>(steps),
{
}

/// Before the cooking steps start, each paragraph is skipped; the steps start
/// after the paragraph whose cleaned, lower-cased text matches "как готовить".
/// After paragraph 99 the scan ends.
pub proof fn law_steps_start_after_heading(
    html: Seq<char>,
    index: nat,
    raw: Seq<char>,
    steps: Seq<Seq<char>>,
)
    ensures
        index >= 100 ==> steps_scan(html, index, false, steps) == Ok::<Seq<Seq<char>>, ()>(steps)
            && steps_scan(html, index, true, steps) == Ok::<Seq<Seq<char>>, ()>(steps),
        index < 100 && xpath_string(html, paragraph_xpath(index)) == Some(raw) ==> steps_scan(
            html,
            index,
            false,
            steps,
        ) == steps_scan(
            html,
            index + 1,
            regex_captures("как готовить"@, lowercase(cleaned(raw)), Seq::empty()) is Some,
            steps,
        ),
        index < 100 && xpath_string(html, paragraph_xpath(index)) is None ==> steps_scan(
            html,
            index,
            false,
            steps,
        ) is Err && steps_scan(html, index, true, steps) is Err,
{
}

/// Once the steps have started, a paragraph that ends no step list adds a
/// step: a paragraph that begins with a lower-case letter continues the last
/// step, joined to it by one space (or starts the first step); any other
/// paragraph is a new step, with its first bold markdown word unwrapped.
pub proof fn law_step_paragraph(html: Seq<char>, index: nat, raw: Seq<char>, steps: Seq<Seq<char>>)
    requires
        index < 100,
        xpath_string(html, paragraph_xpath(index)) == Some(raw),
        !has_prefix(lowercase(cleaned(raw)), "если к вам попал овощ не лучшего качества"@),
        !has_prefix(lowercase(cleaned(raw)), "корректируйте время приготовления"@),
        trimmed(cleaned(raw)).len() > 0,
    ensures
        is_lowercase_letter(cleaned(raw)[0]) && steps.len() > 0 ==> steps_scan(html, index, true, steps)
            == steps_scan(
            html,
            index + 1,
            true,
            steps.update(steps.len() - 1, steps.last() + seq![' '] + cleaned(raw)),
        ),
        is_lowercase_letter(cleaned(raw)[0]) && steps.len() == 0 ==> steps_scan(html, index, true, steps)
            == steps_scan(html, index + 1, true, seq![cleaned(raw)]),
        !is_lowercase_letter(cleaned(raw)[0]) ==> steps_scan(html, index, true, steps) == steps_scan(
            html,
            index + 1,
            true,
            steps.push(without_bold(cleaned(raw))),
        ),
{
    if steps.len() == 0 {
        assert(steps.push(cleaned(raw)) == seq![cleaned(raw)]);
    }
}

/// Unwrapping bold markdown replaces the first match of
/// `(?<left>.*)\*\*(?<inner>\S+)\*\*(?<right>.*)` by its three groups, and
/// leaves a step without such a match as it is.
pub proof fn law_bold_unwrapped(step: Seq<char>, c: CaptureView)
    ensures
        regex_captures(
            "(?<left>.*)\\*\\*(?<inner>\\S+)\\*\\*(?<right>.*)"@,
            step,
            seq!["left"@, "inner"@, "right"@],
        ) == Some(c) && c.groups.len() == 3 && c.groups[0] is Some && c.groups[1] is Some
            && c.groups[2] is Some ==> without_bold(step) == c.before + c.groups[0]->0
            + c.groups[1]->0 + c.groups[2]->0 + c.after,
        regex_captures(
            "(?<left>.*)\\*\\*(?<inner>\\S+)\\*\\*(?<right>.*)"@,
            step,
            seq!["left"@, "inner"@, "right"@],
        ) is None ==> without_bold(step) == step,
{
}

/// One paragraph of the ingredient scan: the paragraph "вам понадобится"
/// (lower-cased, trimmed) is skipped once before the list; the paragraph "на
/// вашей кухне" ends the list and gives its index; any other paragraph adds
/// the ingredients of its cleaned text before those of the later paragraphs.
/// After paragraph 9 the scan ends with index 0.
pub proof fn law_ingredient_paragraph(html: Seq<char>, index: nat, raw: Seq<char>, started: bool)
    ensures
        index >= 10 ==> ingredients_scan(html, index, started) == Ok::<
            (nat, Seq<IngredientView>),
            (),
        >((0, Seq::empty())),
        index < 10 && xpath_string(html, paragraph_xpath(index)) is None ==> ingredients_scan(
            html,
            index,
            started,
        ) is Err,
        index < 10 && xpath_string(html, paragraph_xpath(index)) == Some(raw) && !started
            && lowercase(trimmed(raw)) == "вам понадобится"@ ==> ingredients_scan(html, index, started)
            == ingredients_scan(html, index + 1, true),
        index < 10 && xpath_string(html, paragraph_xpath(index)) == Some(raw) && !(!started
            && lowercase(trimmed(raw)) == "вам понадобится"@) && lowercase(trimmed(raw))
            == "на вашей кухне"@ ==> ingredients_scan(html, index, started) == Ok::<
            (nat, Seq<IngredientView>),
            (),
        >((index, Seq::empty())),
        index < 10 && xpath_string(html, paragraph_xpath(index)) == Some(raw) && !(!started
            && lowercase(trimmed(raw)) == "вам понадобится"@) && lowercase(trimmed(raw))
            != "на вашей кухне"@ ==> ingredients_scan(html, index, started) == match ingredients_scan(
            html,
            index + 1,
            started,
        ) {
            Ok((last, rest)) => Ok::<(nat, Seq<IngredientView>), ()>(
                (last, paragraph_ingredients(collapsed_spaces(without_line_breaks(trimmed(raw)))) + rest),
            ),
            Err(()) => Err::<(nat, Seq<IngredientView>), ()>(()),
        },
{
}

} // verus!
