//! Looking up localized strings in tables of locales, and turning parsed
//! locale files into such tables. Finding and reading the files happens
//! around this module.
use vstd::prelude::*;

use crate::err::ConmxErr;

verus! {

/// Key to localized text, in the order of the locale file.
pub type LocaleStringMap = Vec<(String, String)>;

/// Category to its key/text table.
pub type LocaleCategories = Vec<(String, LocaleStringMap)>;

/// Every loaded locale, and which one is active. Each table is kept as a
/// list of entries; a lookup takes the first entry with the key.
#[derive(Debug, Clone)]
pub struct Localization {
    pub locales: Vec<(String, LocaleCategories)>,
    pub locale: String,
    pub default: String,
}

/// A value of a locale file: a string, an array, or an object whose entries
/// keep the order of the file.
#[derive(Debug)]
pub enum StringVal {
    Str(String),
    Array(Vec<Box<StringVal>>),
    Table(Vec<(String, Box<StringVal>)>),
}

/// The value of the first entry of `s` whose key is `k`.
pub open spec fn find<V>(s: Seq<(String, V)>, k: Seq<char>) -> Option<V>
    decreases s.len(),
{
    if s.len() == 0 {
        None
    } else if s[0].0@ == k {
        Some(s[0].1)
    } else {
        find(s.drop_first(), k)
    }
}

/// Whether `p` is the position of the one and only `:` of `s`.
pub open spec fn sole_colon(s: Seq<char>, p: int) -> bool {
    &&& 0 <= p < s.len()
    &&& s[p] == ':'
    &&& forall|j: int| 0 <= j < s.len() && j != p ==> s[j] != ':'
}

/// The text `localized` returns for `s`: for `category:key` with exactly one
/// colon, the text of that key in that category of the active locale (of
/// the default locale when the active one is not loaded); otherwise, or when
/// the lookup finds nothing, `s` itself.
pub open spec fn localized_text(
    locales: Seq<(String, LocaleCategories)>,
    locale: Seq<char>,
    default: Seq<char>,
    s: Seq<char>,
) -> Seq<char> {
    if exists|p: int| sole_colon(s, p) {
        let p = choose|p: int| sole_colon(s, p);
        let cat = s.subrange(0, p);
        let key = s.subrange(p + 1, s.len() as int);
        let table = match find(locales, locale) {
            Some(t) => Some(t),
            None => find(locales, default),
        };
        match table {
            Some(t) => match find(t@, cat) {
                Some(m) => match find(m@, key) {
                    Some(text) => text@,
                    None => s,
                },
                None => s,
            },
            None => s,
        }
    } else {
        s
    }
}

/// `n` tab characters.
pub open spec fn tabs(n: nat) -> Seq<char>
    decreases n,
{
    if n == 0 {
        Seq::empty()
    } else {
        tabs((n - 1) as nat) + seq!['\t']
    }
}

/// The indented text of a value at nesting depth `depth`: a string as it
/// is; an array or object as an opening bracket, one line per element (one
/// tab deeper, ended by a comma), and a closing bracket at `depth` tabs.
pub open spec fn format_val(depth: nat, v: StringVal) -> Seq<char>
    decreases v, 0nat,
{
    match v {
        StringVal::Str(s) => s@,
        StringVal::Array(a) => "[\n"@ + format_items(depth, a@, a@.len()) + tabs(depth) + "],\n"@,
        StringVal::Table(m) => "{\n"@ + format_entries(depth, m@, m@.len()) + tabs(depth) + "},\n"@,
    }
}

/// The lines of the first `n` elements of an array at depth `depth`.
pub open spec fn format_items(depth: nat, items: Seq<Box<StringVal>>, n: nat) -> Seq<char>
    decreases items, n,
{
    if n == 0 || n > items.len() {
        Seq::empty()
    } else {
        format_items(depth, items, (n - 1) as nat) + tabs(depth) + "\t"@ + format_val(depth + 1, *items[n - 1])
            + ",\n"@
    }
}

/// The lines of the first `n` entries of an object at depth `depth`.
pub open spec fn format_entries(depth: nat, entries: Seq<(String, Box<StringVal>)>, n: nat) -> Seq<char>
    decreases entries, n,
{
    if n == 0 || n > entries.len() {
        Seq::empty()
    } else {
        format_entries(depth, entries, (n - 1) as nat) + tabs(depth) + "\t"@ + entries[n - 1].0@ + ": "@
            + format_val(depth + 1, *entries[n - 1].1) + ",\n"@
    }
}

/// How deeply `v` nests: 0 for a string, one more than its deepest element
/// for an array or object.
pub open spec fn nesting(v: StringVal) -> nat
    decreases v, 0nat,
{
    match v {
        StringVal::Str(_) => 0,
        StringVal::Array(a) => 1 + items_nesting(a@, a@.len()),
        StringVal::Table(m) => 1 + entries_nesting(m@, m@.len()),
    }
}

pub open spec fn items_nesting(items: Seq<Box<StringVal>>, n: nat) -> nat
    decreases items, n,
{
    if n == 0 || n > items.len() {
        0
    } else {
        let rest = items_nesting(items, (n - 1) as nat);
        let here = nesting(*items[n - 1]);
        if here > rest {
            here
        } else {
            rest
        }
    }
}

pub open spec fn entries_nesting(entries: Seq<(String, Box<StringVal>)>, n: nat) -> nat
    decreases entries, n,
{
    if n == 0 || n > entries.len() {
        0
    } else {
        let rest = entries_nesting(entries, (n - 1) as nat);
        let here = nesting(*entries[n - 1].1);
        if here > rest {
            here
        } else {
            rest
        }
    }
}

proof fn lemma_items_nesting(items: Seq<Box<StringVal>>, n: nat, i: int)
    requires
        0 <= i < n <= items.len(),
    ensures
        nesting(*items[i]) <= items_nesting(items, n),
    decreases n,
{
    if i < n - 1 {
        lemma_items_nesting(items, (n - 1) as nat, i);
    }
}

proof fn lemma_entries_nesting(entries: Seq<(String, Box<StringVal>)>, n: nat, i: int)
    requires
        0 <= i < n <= entries.len(),
    ensures
        nesting(*entries[i].1) <= entries_nesting(entries, n),
    decreases n,
{
    if i < n - 1 {
        lemma_entries_nesting(entries, (n - 1) as nat, i);
    }
}

impl StringVal {
    /// The indented text of `o` at nesting depth `depth`.
    pub fn format_rec(depth: usize, o: &StringVal) -> (r: String)
        requires
            depth + nesting(*o) <= usize::MAX,
        ensures
            r@ == format_val(depth as nat, *o),
        decreases o,
    {
        let mut indent = String::new();
        let mut t: usize = 0;
        while t < depth
            invariant
                t <= depth,
                indent@ == tabs(t as nat),
            decreases depth - t,
        {
            proof {
                reveal_strlit("\t");
            }
            indent.append("\t");
            t = t + 1;
        }
        match o {
            StringVal::Str(s) => s.clone(),
            StringVal::Array(a) => {
                let mut r = String::from_str("[\n");
                let mut i: usize = 0;
                while i < a.len()
                    invariant
                        i <= a@.len(),
                        indent@ == tabs(depth as nat),
                        r@ == "[\n"@ + format_items(depth as nat, a@, i as nat),
                        *o == StringVal::Array(*a),
                        depth + nesting(*o) <= usize::MAX,
                    decreases a@.len() - i,
                {
                    proof {
                        lemma_items_nesting(a@, a@.len(), i as int);
                        assert(nesting(*o) == 1 + items_nesting(a@, a@.len()));
                        assert(decreases_to!(*o => (*o)->Array_0));
                        assert(decreases_to!(*a => a@));
                        assert(decreases_to!(a@ => a@[i as int]));
                        assert(decreases_to!(*o => a@[i as int]));
                    }
                    let inner = Self::format_rec(depth + 1, &a[i]);
                    r.append(indent.as_str());
                    r.append("\t");
                    r.append(inner.as_str());
                    r.append(",\n");
                    i = i + 1;
                }
                r.append(indent.as_str());
                r.append("],\n");
                r
            },
            StringVal::Table(m) => {
                let mut r = String::from_str("{\n");
                let mut i: usize = 0;
                while i < m.len()
                    invariant
                        i <= m@.len(),
                        indent@ == tabs(depth as nat),
                        r@ == "{\n"@ + format_entries(depth as nat, m@, i as nat),
                        *o == StringVal::Table(*m),
                        depth + nesting(*o) <= usize::MAX,
                    decreases m@.len() - i,
                {
                    proof {
                        lemma_entries_nesting(m@, m@.len(), i as int);
                        assert(nesting(*o) == 1 + entries_nesting(m@, m@.len()));
                        assert(decreases_to!(*o => (*o)->Table_0));
                        assert(decreases_to!(*m => m@));
                        assert(decreases_to!(m@ => m@[i as int]));
                        assert(decreases_to!(m@[i as int] => m@[i as int].1));
                        assert(decreases_to!(*o => m@[i as int].1));
                    }
                    let inner = Self::format_rec(depth + 1, &m[i].1);
                    r.append(indent.as_str());
                    r.append("\t");
                    r.append(m[i].0.as_str());
                    r.append(": ");
                    r.append(inner.as_str());
                    r.append(",\n");
                    i = i + 1;
                }
                r.append(indent.as_str());
                r.append("},\n");
                r
            },
        }
    }
}

/// The key/text pairs a table holds, as character sequences.
pub open spec fn text_pairs(s: Seq<(String, String)>) -> Seq<(Seq<char>, Seq<char>)> {
    Seq::new(s.len(), |i: int| (s[i].0@, s[i].1@))
}

/// The entries of an object whose values are strings, in order; the other
/// entries are left out.
pub open spec fn category_texts(entries: Seq<(String, Box<StringVal>)>) -> Seq<(Seq<char>, Seq<char>)>
    decreases entries.len(),
{
    if entries.len() == 0 {
        Seq::empty()
    } else {
        let before = category_texts(entries.drop_last());
        match *entries.last().1 {
            StringVal::Str(s) => before.push((entries.last().0@, s@)),
            _ => before,
        }
    }
}

/// The categories of a locale file: the entries whose value is an object,
/// each with the string entries of that object, in order.
pub open spec fn categories_of(entries: Seq<(String, StringVal)>) -> Seq<(Seq<char>, Seq<(Seq<char>, Seq<char>)>)>
    decreases entries.len(),
{
    if entries.len() == 0 {
        Seq::empty()
    } else {
        let before = categories_of(entries.drop_last());
        match entries.last().1 {
            StringVal::Table(m) => before.push((entries.last().0@, category_texts(m@))),
            _ => before,
        }
    }
}

/// Reads an object as a category: its string entries become the table, and
/// entries of another kind are skipped. A string or an array is no category.
pub fn conv_cat(m: &StringVal) -> (r: Result<LocaleStringMap, ConmxErr>)
    requires
        nesting(*m) <= usize::MAX,
    ensures
        match *m {
            StringVal::Str(s) => r == Err::<LocaleStringMap, ConmxErr>(ConmxErr::Locale(r->Err_0->Locale_0))
                && r->Err_0->Locale_0@ == "Category formatting is not correct (value \""@ + s@ + "\")"@,
            StringVal::Array(_) => r == Err::<LocaleStringMap, ConmxErr>(ConmxErr::Locale(r->Err_0->Locale_0))
                && r->Err_0->Locale_0@ == "Category formatting is not correct ("@ + format_val(0, *m) + ")"@,
            StringVal::Table(entries) => r.is_ok() && text_pairs(r->Ok_0@) == category_texts(entries@),
        },
{
    match m {
        StringVal::Str(s) => {
            let msg = String::from_str("Category formatting is not correct (value \"").concat(s.as_str()).concat("\")");
            Err(ConmxErr::Locale(msg))
        },
        StringVal::Array(_) => {
            let shown = StringVal::format_rec(0, m);
            let msg = String::from_str("Category formatting is not correct (").concat(shown.as_str()).concat(")");
            Err(ConmxErr::Locale(msg))
        },
        StringVal::Table(entries) => {
            let mut cat: LocaleStringMap = Vec::new();
            let mut i: usize = 0;
            while i < entries.len()
                invariant
                    i <= entries@.len(),
                    text_pairs(cat@) == category_texts(entries@.take(i as int)),
                decreases entries@.len() - i,
            {
                proof {
                    assert(entries@.take(i + 1).drop_last() =~= entries@.take(i as int));
                }
                match &*entries[i].1 {
                    StringVal::Str(s) => {
                        let ghost before = cat@;
                        cat.push((entries[i].0.clone(), s.clone()));
                        proof {
                            assert(text_pairs(cat@) =~= text_pairs(before).push((entries@[i as int].0@, s@)));
                        }
                    },
                    _ => {},
                }
                i = i + 1;
            }
            proof {
                assert(entries@.take(i as int) =~= entries@);
            }
            Ok(cat)
        },
    }
}

/// Reads the top level of a locale file: every entry whose value is an
/// object becomes a category; the other entries are skipped.
pub fn conv_cats(m: &Vec<(String, StringVal)>) -> (r: Result<LocaleCategories, ConmxErr>)
    requires
        forall|i: int| 0 <= i < m@.len() ==> nesting(#[trigger] m@[i].1) <= usize::MAX,
    ensures
        r.is_ok(),
        r->Ok_0@.len() == categories_of(m@).len(),
        forall|i: int| 0 <= i < categories_of(m@).len() ==> {
            &&& (#[trigger] r->Ok_0@[i]).0@ == categories_of(m@)[i].0
            &&& text_pairs(r->Ok_0@[i].1@) == categories_of(m@)[i].1
        },
{
    let mut cats: LocaleCategories = Vec::new();
    let mut i: usize = 0;
    while i < m.len()
        invariant
            i <= m@.len(),
            forall|j: int| 0 <= j < m@.len() ==> nesting(#[trigger] m@[j].1) <= usize::MAX,
            cats@.len() == categories_of(m@.take(i as int)).len(),
            forall|j: int| 0 <= j < cats@.len() ==> {
                &&& (#[trigger] cats@[j]).0@ == categories_of(m@.take(i as int))[j].0
                &&& text_pairs(cats@[j].1@) == categories_of(m@.take(i as int))[j].1
            },
        decreases m@.len() - i,
    {
        proof {
            assert(m@.take(i + 1).drop_last() =~= m@.take(i as int));
        }
        match conv_cat(&m[i].1) {
            Ok(cat) => {
                cats.push((m[i].0.clone(), cat));
            },
            _ => {},
        }
        i = i + 1;
    }
    proof {
        assert(m@.take(i as int) =~= m@);
    }
    Ok(cats)
}

/// Whether a `.json` starts at position `p` of `s`, after at least one
/// character.
pub open spec fn json_at(s: Seq<char>, p: int) -> bool {
    1 <= p && p + 5 <= s.len() && s.subrange(p, p + 5) == ".json"@
}

/// What the pattern `(.+)\.json` captures in a file name without a line
/// break: everything before the last `.json` that follows at least one
/// character; `None` when there is no such `.json`.
pub open spec fn json_stem(s: Seq<char>) -> Option<Seq<char>> {
    if exists|p: int| json_at(s, p) {
        let p = choose|p: int| json_at(s, p) && forall|q: int| json_at(s, q) ==> q <= p;
        Some(s.subrange(0, p))
    } else {
        None
    }
}

/// Relies on regex's `Regex::captures` with the pattern `(.+)\.json`, read
/// by group 1: the search is leftmost-first, `.+` is greedy, and `.` matches
/// every character but a line break. Nothing is said of names with one.
#[verifier::external_body]
fn json_file_stem(file_name: &str) -> (r: Option<String>)
    ensures
        !file_name@.contains('\n') ==> match r {
            Some(stem) => json_stem(file_name@) == Some(stem@),
            None => json_stem(file_name@).is_none(),
        },
{
    let re = regex::Regex::new(r"(.+)\.json").unwrap();
    re.captures(file_name).and_then(|c| c.get(1)).map(|m| m.as_str().to_owned())
}

/// The locale that a file of the locale directory holds: its name is the
/// file name up to the last `.json` (`de_DE.json` holds `de_DE`), and its
/// categories are read from the file's top-level entries by [`conv_cats`].
/// `None` for a file name without `.json` after its first character.
pub fn locale_from_file(file_name: &str, entries: &Vec<(String, StringVal)>) -> (r: Option<(String, LocaleCategories)>)
    requires
        forall|i: int| 0 <= i < entries@.len() ==> nesting(#[trigger] entries@[i].1) <= usize::MAX,
    ensures
        !file_name@.contains('\n') ==> (r.is_some() <==> json_stem(file_name@).is_some()),
        !file_name@.contains('\n') && r.is_some() ==> Some(r->Some_0.0@) == json_stem(file_name@),
        r.is_some() ==> {
            let cats = r->Some_0.1@;
            &&& cats.len() == categories_of(entries@).len()
            &&& forall|i: int| 0 <= i < cats.len() ==> {
                &&& (#[trigger] cats[i]).0@ == categories_of(entries@)[i].0
                &&& text_pairs(cats[i].1@) == categories_of(entries@)[i].1
            }
        },
{
    match json_file_stem(file_name) {
        Some(name) => match conv_cats(entries) {
            Ok(cats) => Some((name, cats)),
            Err(_) => None,
        },
        None => None,
    }
}

/// The first entry of `entries` with key `k`.
fn find_entry<'a, V>(entries: &'a Vec<(String, V)>, k: &String) -> (r: Option<&'a V>)
    ensures
        match find(entries@, k@) {
            Some(v) => r == Some(&v),
            None => r.is_none(),
        },
{
    let mut i: usize = 0;
    assert(entries@.skip(0) =~= entries@);
    while i < entries.len()
        invariant
            i <= entries@.len(),
            find(entries@, k@) == find(entries@.skip(i as int), k@),
        decreases entries@.len() - i,
    {
        proof {
            assert(entries@.skip(i as int).drop_first() =~= entries@.skip(i + 1));
        }
        if entries[i].0 == *k {
            return Some(&entries[i].1);
        }
        i = i + 1;
    }
    None
}

/// The localized text for `s`, which names a text as `category:key`; `s`
/// itself when it is not of that form or nothing is found.
pub fn localized(loc: &Localization, s: &str) -> (r: String)
    ensures
        r@ == localized_text(loc.locales@, loc.locale@, loc.default@, s@),
{
    let n = s.unicode_len();
    let mut colon: Option<usize> = None;
    let mut several = false;
    let mut i: usize = 0;
    while i < n
        invariant
            n == s@.len(),
            i <= n,
            colon.is_none() ==> forall|j: int| 0 <= j < i ==> s@[j] != ':',
            colon.is_some() ==> {
                let p = colon.unwrap() as int;
                &&& p < i
                &&& s@[p] == ':'
                &&& forall|j: int| 0 <= j < p ==> s@[j] != ':'
                &&& !several ==> forall|j: int| p < j < i ==> s@[j] != ':'
            },
            several ==> colon.is_some() && exists|j: int| colon.unwrap() < j < i && s@[j] == ':',
        decreases n - i,
    {
        if s.get_char(i) == ':' {
            if colon.is_none() {
                colon = Some(i);
            } else {
                several = true;
            }
        }
        i = i + 1;
    }
    let fallback = String::from_str(s);
    match colon {
        Some(p) if !several => {
            proof {
                assert(sole_colon(s@, p as int));
                let c = choose|c: int| sole_colon(s@, c);
                assert(c == p as int);
            }
            let cat = String::from_str(s.substring_char(0, p));
            let key = String::from_str(s.substring_char(p + 1, n));
            let table = match find_entry(&loc.locales, &loc.locale) {
                Some(t) => Some(t),
                None => find_entry(&loc.locales, &loc.default),
            };
            match table {
                Some(t) => match find_entry(t, &cat) {
                    Some(m) => match find_entry(m, &key) {
                        Some(text) => text.clone(),
                        None => fallback,
                    },
                    None => fallback,
                },
                None => fallback,
            }
        },
        _ => {
            proof {
                assert forall|p: int| !sole_colon(s@, p) by {
                    if sole_colon(s@, p) {
                        if colon.is_some() {
                            if several {
                                let j = choose|j: int| colon.unwrap() < j < i && s@[j] == ':';
                                assert(j != p || colon.unwrap() as int != p);
                            }
                        }
                    }
                }
            }
            fallback
        },
    }
}

} // verus!
