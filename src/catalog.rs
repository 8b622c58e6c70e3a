use vstd::prelude::*;
use vstd::string::*;
use crate::serial::{find_char, first_index_from, is_unsigned_text, parse_unsigned, unsigned_value};

verus! {

/// A product of the catalog: its name, the code that identifiers of its
/// boards carry from character 13 on, and how many boards make a panel.
pub struct IctProducts {
    pub name: String,
    pub dmc: String,
    pub boards_on_panel: u8,
}

pub struct ProductView {
    pub name: Seq<char>,
    pub dmc: Seq<char>,
    pub boards: nat,
}

impl View for IctProducts {
    type V = ProductView;

    open spec fn view(&self) -> ProductView {
        ProductView { name: self.name@, dmc: self.dmc@, boards: self.boards_on_panel as nat }
    }
}

/// Why the catalog cannot be loaded.
#[derive(Clone, Copy, PartialEq, Eq, Debug, Structural)]
pub enum CatalogError {
    /// A product line whose panel size is not a number from 1 to 255.
    MalformedPanelSize,
}

pub open spec fn is_prefix_of(pre: Seq<char>, s: Seq<char>) -> bool {
    pre.len() <= s.len() && s.subrange(0, pre.len() as int) == pre
}

/// The product code of an identifier: what follows its first 13 characters.
pub open spec fn product_code(dmc: Seq<char>) -> Seq<char> {
    dmc.subrange(13, dmc.len() as int)
}

/// The first product, at or after `k`, whose code starts `code`, or
/// `products.len()` when there is none.
pub open spec fn first_match_from(products: Seq<ProductView>, code: Seq<char>, k: nat) -> nat
    decreases products.len() - k,
{
    if k >= products.len() {
        products.len()
    } else if is_prefix_of(products[k as int].dmc, code) {
        k
    } else {
        first_match_from(products, code, k + 1)
    }
}

/// The name and panel size of the product of identifier `dmc`: those of
/// the first matching product, else `Unknown` with panels of one board.
pub open spec fn resolved(products: Seq<ProductView>, dmc: Seq<char>) -> (Seq<char>, nat) {
    let k = first_match_from(products, product_code(dmc), 0);
    if k < products.len() {
        (products[k as int].name, products[k as int].boards)
    } else {
        ("Unknown"@, 1)
    }
}

/// Whether `s`, from character `from` on, starts with `pre`.
fn has_prefix_at(s: &str, from: usize, pre: &str) -> (r: bool)
    requires
        from <= s@.len(),
    ensures
        r == is_prefix_of(pre@, s@.subrange(from as int, s@.len() as int)),
{
    let n = s.unicode_len();
    let m = pre.unicode_len();
    let ghost rest = s@.subrange(from as int, s@.len() as int);
    if m > n - from {
        return false;
    }
    let mut j: usize = 0;
    while j < m
        invariant
            j <= m,
            m == pre@.len(),
            n == s@.len(),
            from + m <= n,
            rest == s@.subrange(from as int, s@.len() as int),
            forall|q: int| 0 <= q < j ==> rest[q] == pre@[q],
        decreases m - j,
    {
        if s.get_char(from + j) != pre.get_char(j) {
            assert(rest.subrange(0, m as int)[j as int] != pre@[j as int]);
            return false;
        }
        j = j + 1;
    }
    assert(rest.subrange(0, m as int) =~= pre@);
    true
}

/// The name and panel size of the product of identifier `dmc`, by the
/// first product, in catalog order, whose code starts the identifier's
/// product code. An identifier of no known product is of `Unknown`, with
/// panels of one board.
pub fn resolve_product(products: &Vec<IctProducts>, dmc: &str) -> (r: (String, u8))
    requires
        dmc@.len() >= 16,
    ensures
        (r.0@, r.1 as nat) == resolved(products@.map_values(|p: IctProducts| p@), dmc@),
{
    let ghost pv = products@.map_values(|p: IctProducts| p@);
    let ghost code = product_code(dmc@);
    let mut k: usize = 0;
    while k < products.len()
        invariant
            k <= products@.len(),
            pv == products@.map_values(|p: IctProducts| p@),
            code == product_code(dmc@),
            dmc@.len() >= 16,
            first_match_from(pv, code, k as nat) == first_match_from(pv, code, 0),
        decreases products@.len() - k,
    {
        let p = &products[k];
        if has_prefix_at(dmc, 13, p.dmc.as_str()) {
            assert(pv[k as int] == p@);
            return (p.name.clone(), p.boards_on_panel);
        }
        assert(pv[k as int] == p@);
        k = k + 1;
    }
    (String::from_str("Unknown"), 1)
}

/// White space as `char::is_whitespace` counts it (the Unicode
/// `White_Space` property).
pub open spec fn is_white(c: char) -> bool {
    ||| '\t' <= c && c <= '\r'
    ||| c == ' '
    ||| c == '\u{85}'
    ||| c == '\u{a0}'
    ||| c == '\u{1680}'
    ||| '\u{2000}' <= c && c <= '\u{200a}'
    ||| c == '\u{2028}'
    ||| c == '\u{2029}'
    ||| c == '\u{202f}'
    ||| c == '\u{205f}'
    ||| c == '\u{3000}'
}

fn is_white_char(c: char) -> (r: bool)
    ensures
        r == is_white(c),
{
    ('\t' <= c && c <= '\r') || c == ' ' || c == '\u{85}' || c == '\u{a0}' || c == '\u{1680}'
        || ('\u{2000}' <= c && c <= '\u{200a}') || c == '\u{2028}' || c == '\u{2029}' || c
        == '\u{202f}' || c == '\u{205f}' || c == '\u{3000}'
}

/// The index of the first character of `s` at or after `i` that is not
/// white space, or `s.len()` when there is none.
pub open spec fn first_solid_from(s: Seq<char>, i: nat) -> nat
    decreases s.len() - i,
{
    if i >= s.len() {
        s.len()
    } else if !is_white(s[i as int]) {
        i
    } else {
        first_solid_from(s, i + 1)
    }
}

/// Just past the last character of `s` before index `e` that is not white
/// space, or 0 when there is none.
pub open spec fn solid_end_before(s: Seq<char>, e: nat) -> nat
    decreases e,
{
    if e == 0 {
        0
    } else if !is_white(s[e - 1]) {
        e
    } else {
        solid_end_before(s, (e - 1) as nat)
    }
}

/// `s` without its leading and trailing white space.
pub open spec fn trimmed(s: Seq<char>) -> Seq<char> {
    let a = first_solid_from(s, 0);
    let b = solid_end_before(s, s.len());
    if a < b {
        s.subrange(a as int, b as int)
    } else {
        Seq::empty()
    }
}

/// `s` without its leading and trailing white space.
pub fn trim_text(s: &str) -> (r: String)
    ensures
        r@ == trimmed(s@),
{
    let n = s.unicode_len();
    let mut a: usize = 0;
    loop
        invariant
            a <= n,
            n == s@.len(),
            first_solid_from(s@, a as nat) == first_solid_from(s@, 0),
        ensures
            a <= n,
            first_solid_from(s@, a as nat) == first_solid_from(s@, 0),
            a < n ==> !is_white(s@[a as int]),
        decreases n - a,
    {
        if a == n {
            break;
        }
        if !is_white_char(s.get_char(a)) {
            break;
        }
        a = a + 1;
    }
    let mut b: usize = n;
    loop
        invariant
            b <= n,
            n == s@.len(),
            solid_end_before(s@, b as nat) == solid_end_before(s@, n as nat),
        ensures
            b <= n,
            solid_end_before(s@, b as nat) == solid_end_before(s@, n as nat),
            b > 0 ==> !is_white(s@[b - 1]),
        decreases b,
    {
        if b == 0 {
            break;
        }
        if !is_white_char(s.get_char(b - 1)) {
            break;
        }
        b = b - 1;
    }
    if a < b {
        String::from_str(s.substring_char(a, b))
    } else {
        String::new()
    }
}

/// A line that holds no product: empty, or a comment starting with `!`.
pub open spec fn is_skipped_line(line: Seq<char>) -> bool {
    line.len() == 0 || line[0] == '!'
}

pub open spec fn first_bar(line: Seq<char>) -> nat {
    first_index_from(line, '|', 0)
}

pub open spec fn second_bar(line: Seq<char>) -> nat {
    first_index_from(line, '|', first_bar(line) + 1)
}

/// A line of exactly three `|`-separated fields.
pub open spec fn has_three_fields(line: Seq<char>) -> bool {
    &&& first_bar(line) < line.len()
    &&& second_bar(line) < line.len()
    &&& first_index_from(line, '|', second_bar(line) + 1) == line.len()
}

/// The field `i` (0, 1 or 2) of a line of three fields, trimmed.
pub open spec fn line_field(line: Seq<char>, i: nat) -> Seq<char> {
    if i == 0 {
        trimmed(line.subrange(0, first_bar(line) as int))
    } else if i == 1 {
        trimmed(line.subrange(first_bar(line) + 1int, second_bar(line) as int))
    } else {
        trimmed(line.subrange(second_bar(line) + 1int, line.len() as int))
    }
}

/// A panel size: an unsigned number from 1 to 255.
pub open spec fn panel_size_valid(field: Seq<char>) -> bool {
    is_unsigned_text(field) && 1 <= unsigned_value(field) <= 255
}

/// What a line of the catalog holds: no product, a product, or an error.
pub open spec fn line_product(line: Seq<char>) -> Result<Option<ProductView>, CatalogError> {
    if is_skipped_line(line) || !has_three_fields(line) {
        Ok(None)
    } else if !panel_size_valid(line_field(line, 2)) {
        Err(CatalogError::MalformedPanelSize)
    } else {
        Ok(
            Some(
                ProductView {
                    name: line_field(line, 0),
                    dmc: line_field(line, 1),
                    boards: unsigned_value(line_field(line, 2)),
                },
            ),
        )
    }
}

fn trimmed_string(line: &str, from: usize, to: usize) -> (r: String)
    requires
        from <= to <= line@.len(),
    ensures
        r@ == trimmed(line@.subrange(from as int, to as int)),
{
    trim_text(line.substring_char(from, to))
}

/// Reads one line of the product catalog: `name | code | panel size`, each
/// field trimmed. Empty lines, comments (`!`) and lines without exactly
/// three fields hold no product; a panel size that is not a number from 1
/// to 255 is an error.
pub fn parse_product_line(line: &str) -> (r: Result<Option<IctProducts>, CatalogError>)
    ensures
        match r {
            Ok(None) => line_product(line@) == Ok::<Option<ProductView>, CatalogError>(None),
            Ok(Some(p)) => line_product(line@) == Ok::<Option<ProductView>, CatalogError>(Some(p@)),
            Err(e) => line_product(line@) == Err::<Option<ProductView>, CatalogError>(e),
        },
{
    let n = line.unicode_len();
    if n == 0 {
        return Ok(None);
    }
    if line.get_char(0) == '!' {
        return Ok(None);
    }
    let b1 = find_char(line, '|', 0);
    if b1 == n {
        return Ok(None);
    }
    let b2 = find_char(line, '|', b1 + 1);
    if b2 == n {
        return Ok(None);
    }
    let b3 = find_char(line, '|', b2 + 1);
    if b3 != n {
        return Ok(None);
    }
    let name = trimmed_string(line, 0, b1);
    let dmc = trimmed_string(line, b1 + 1, b2);
    let size_text = trimmed_string(line, b2 + 1, n);
    match parse_unsigned(size_text.as_str(), 255) {
        Some(v) => {
            if v == 0 {
                Err(CatalogError::MalformedPanelSize)
            } else {
                Ok(Some(IctProducts { name, dmc, boards_on_panel: v as u8 }))
            }
        },
        None => Err(CatalogError::MalformedPanelSize),
    }
}

/// The line of `text` that starts at index `i`: up to the next `\n`,
/// without a `\r` right before it.
pub open spec fn line_at(text: Seq<char>, i: nat) -> Seq<char> {
    let e = first_index_from(text, '\n', i);
    if e < text.len() && e > i && text[e - 1] == '\r' {
        text.subrange(i as int, e - 1)
    } else {
        text.subrange(i as int, e as int)
    }
}

/// The products of the lines of `text` from index `i` on, in order, or the
/// error of the first line that has one.
pub open spec fn catalog_from(text: Seq<char>, i: nat) -> Result<Seq<ProductView>, CatalogError>
    decreases text.len() - i,
{
    let e = first_index_from(text, '\n', i);
    if i >= text.len() {
        Ok(Seq::empty())
    } else {
        let rest = if i <= e < text.len() {
            catalog_from(text, e + 1)
        } else {
            Ok(Seq::empty())
        };
        match line_product(line_at(text, i)) {
            Err(e) => Err(e),
            Ok(found) => match rest {
                Err(e) => Err(e),
                Ok(rest) => Ok(
                    match found {
                        Some(p) => seq![p] + rest,
                        None => rest,
                    },
                ),
            },
        }
    }
}

/// `rest` with `done` in front of its products.
pub open spec fn after(done: Seq<ProductView>, rest: Result<Seq<ProductView>, CatalogError>) -> Result<
    Seq<ProductView>,
    CatalogError,
> {
    match rest {
        Err(e) => Err(e),
        Ok(ps) => Ok(done + ps),
    }
}

/// Reads the product catalog, line by line (lines end at `\n` or `\r\n`):
/// the products in file order, or the error of the first malformed line.
pub fn parse_catalog(text: &str) -> (r: Result<Vec<IctProducts>, CatalogError>)
    ensures
        match r {
            Ok(v) => catalog_from(text@, 0) == Ok::<Seq<ProductView>, CatalogError>(
                v@.map_values(|p: IctProducts| p@),
            ),
            Err(e) => catalog_from(text@, 0) == Err::<Seq<ProductView>, CatalogError>(e),
        },
{
    let n = text.unicode_len();
    let mut ret: Vec<IctProducts> = Vec::new();
    let mut i: usize = 0;
    while i < n
        invariant
            i <= n,
            n == text@.len(),
            catalog_from(text@, 0) == after(
                ret@.map_values(|p: IctProducts| p@),
                catalog_from(text@, i as nat),
            ),
        decreases n - i,
    {
        let e = find_char(text, '\n', i);
        let end = if e < n && e > i && text.get_char(e - 1) == '\r' {
            e - 1
        } else {
            e
        };
        let line = text.substring_char(i, end);
        assert(line@ == line_at(text@, i as nat));
        let ghost done = ret@.map_values(|p: IctProducts| p@);
        let ghost rest = if e < n {
            catalog_from(text@, (e + 1) as nat)
        } else {
            Ok(Seq::empty())
        };
        match parse_product_line(line) {
            Err(err) => {
                return Err(err);
            },
            Ok(None) => {},
            Ok(Some(p)) => {
                let ghost pv = p@;
                ret.push(p);
                assert(ret@.map_values(|p: IctProducts| p@) =~= done.push(pv));
                proof {
                    if rest is Ok {
                        assert(done.push(pv) + rest->Ok_0 =~= done + (seq![pv] + rest->Ok_0));
                    }
                }
            },
        }
        if e == n {
            i = n;
        } else {
            i = e + 1;
        }
    }
    assert(catalog_from(text@, i as nat) == Ok::<Seq<ProductView>, CatalogError>(Seq::empty()));
    assert(ret@.map_values(|p: IctProducts| p@) + Seq::<ProductView>::empty() =~= ret@.map_values(
        |p: IctProducts| p@,
    ));
    Ok(ret)
}

} // verus!
