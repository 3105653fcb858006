//! Value types: style classes, font descriptors, parsed fonts, and queries.

use vstd::prelude::*;

verus! {

/// An opaque style/category tag (weight, family category, ...) used for matching.
/// No structure is assumed beyond equality.
#[derive(Clone, Copy, Debug, PartialEq, Eq, Hash, Structural)]
pub struct FontClass(pub u64);

/// A parsed font. The loader reads exactly one thing of it: which characters
/// its character-to-glyph mapping covers.
#[derive(Debug)]
pub struct Font {
    /// The characters the font maps.
    pub chars: Vec<char>,
}

impl View for Font {
    type V = Seq<char>;

    open spec fn view(&self) -> Seq<char> {
        self.chars@
    }
}

impl Font {
    /// Builds a font covering exactly the given characters.
    pub fn new(chars: Vec<char>) -> (r: Font)
        ensures
            r@ == chars@,
    {
        Font { chars }
    }

    /// Whether the font's character mapping covers `c`.
    pub fn supports(&self, c: char) -> (r: bool)
        ensures
            r == self@.contains(c),
    {
        let mut i: usize = 0;
        while i < self.chars.len()
            invariant
                i <= self.chars@.len(),
                forall|j: int| 0 <= j < i ==> self.chars@[j] != c,
            decreases self.chars@.len() - i,
        {
            if self.chars[i] == c {
                assert(self.chars@[i as int] == c);
                return true;
            }
            i += 1;
        }
        assert(!self@.contains(c));
        false
    }
}

impl Clone for Font {
    fn clone(&self) -> (r: Font)
        ensures
            r@ == self@,
    {
        Font { chars: copy_chars(&self.chars) }
    }
}

/// The mathematical value of a [`FontInfo`].
#[verifier::ext_equal]
pub struct FontInfoV {
    pub id: u64,
    pub classes: Seq<FontClass>,
}

/// An immutable descriptor of a font a provider can supply: an opaque face
/// identifier plus the set of classes the font belongs to. Two descriptors
/// are cache-equivalent iff they are structurally equal.
#[derive(Debug, PartialEq, Eq, Hash)]
pub struct FontInfo {
    /// Opaque identifier of the face, as the provider names it.
    pub id: u64,
    /// The classes the font belongs to.
    pub classes: Vec<FontClass>,
}

impl View for FontInfo {
    type V = FontInfoV;

    open spec fn view(&self) -> FontInfoV {
        FontInfoV { id: self.id, classes: self.classes@ }
    }
}

impl Clone for FontInfo {
    fn clone(&self) -> (r: FontInfo)
        ensures
            r@ == self@,
    {
        FontInfo { id: self.id, classes: copy_classes(&self.classes) }
    }
}

/// The mathematical value of a [`FontQuery`].
#[verifier::ext_equal]
pub struct FontQueryV {
    pub character: char,
    pub classes: Seq<FontClass>,
    pub fallback: Seq<FontClass>,
}

/// A query for a font with specific properties. Equality is structural over
/// all three fields; the order of `fallback` matters both for matching and
/// for the cache key, the order of `classes` only for the cache key.
#[derive(Debug, PartialEq, Eq, Hash)]
pub struct FontQuery {
    /// Which character is needed.
    pub character: char,
    /// Which classes the font has to be part of.
    pub classes: Vec<FontClass>,
    /// The font matching the leftmost class in this sequence should be returned.
    pub fallback: Vec<FontClass>,
}

impl View for FontQuery {
    type V = FontQueryV;

    open spec fn view(&self) -> FontQueryV {
        FontQueryV { character: self.character, classes: self.classes@, fallback: self.fallback@ }
    }
}

impl Clone for FontQuery {
    fn clone(&self) -> (r: FontQuery)
        ensures
            r@ == self@,
    {
        FontQuery {
            character: self.character,
            classes: copy_classes(&self.classes),
            fallback: copy_classes(&self.fallback),
        }
    }
}

/// Copies a class list.
pub fn copy_classes(v: &Vec<FontClass>) -> (r: Vec<FontClass>)
    ensures
        r@ == v@,
{
    let mut r: Vec<FontClass> = Vec::new();
    let mut i: usize = 0;
    while i < v.len()
        invariant
            i <= v@.len(),
            r@ == v@.take(i as int),
        decreases v@.len() - i,
    {
        r.push(v[i]);
        assert(r@ =~= v@.take(i + 1));
        i += 1;
    }
    assert(v@.take(v@.len() as int) =~= v@);
    r
}

/// Copies a character list.
pub fn copy_chars(v: &Vec<char>) -> (r: Vec<char>)
    ensures
        r@ == v@,
{
    let mut r: Vec<char> = Vec::new();
    let mut i: usize = 0;
    while i < v.len()
        invariant
            i <= v@.len(),
            r@ == v@.take(i as int),
        decreases v@.len() - i,
    {
        r.push(v[i]);
        assert(r@ =~= v@.take(i + 1));
        i += 1;
    }
    assert(v@.take(v@.len() as int) =~= v@);
    r
}

/// Whether `v` holds the class `c`.
pub fn contains_class(v: &Vec<FontClass>, c: FontClass) -> (r: bool)
    ensures
        r == v@.contains(c),
{
    let mut i: usize = 0;
    while i < v.len()
        invariant
            i <= v@.len(),
            forall|j: int| 0 <= j < i ==> v@[j] != c,
        decreases v@.len() - i,
    {
        if v[i] == c {
            assert(v@[i as int] == c);
            return true;
        }
        i += 1;
    }
    assert(!v@.contains(c));
    false
}

/// Whether every class of `req` occurs in `have`.
pub fn classes_subset(req: &Vec<FontClass>, have: &Vec<FontClass>) -> (r: bool)
    ensures
        r == (forall|j: int| 0 <= j < req@.len() ==> have@.contains(#[trigger] req@[j])),
{
    let mut i: usize = 0;
    while i < req.len()
        invariant
            i <= req@.len(),
            forall|j: int| 0 <= j < i ==> have@.contains(#[trigger] req@[j]),
        decreases req@.len() - i,
    {
        if !contains_class(have, req[i]) {
            return false;
        }
        i += 1;
    }
    true
}

/// Structural equality of two class lists.
pub fn classes_eq(a: &Vec<FontClass>, b: &Vec<FontClass>) -> (r: bool)
    ensures
        r == (a@ == b@),
{
    if a.len() != b.len() {
        return false;
    }
    let mut i: usize = 0;
    while i < a.len()
        invariant
            a@.len() == b@.len(),
            i <= a@.len(),
            forall|j: int| 0 <= j < i ==> a@[j] == b@[j],
        decreases a@.len() - i,
    {
        if a[i] != b[i] {
            return false;
        }
        i += 1;
    }
    assert(a@ =~= b@);
    true
}

/// Structural equality of two descriptors.
pub fn info_eq(a: &FontInfo, b: &FontInfo) -> (r: bool)
    ensures
        r == (a@ == b@),
{
    let r = a.id == b.id && classes_eq(&a.classes, &b.classes);
    proof {
        if r {
            assert(a@ =~= b@);
        }
    }
    r
}

/// Structural equality of two queries.
pub fn query_eq(a: &FontQuery, b: &FontQuery) -> (r: bool)
    ensures
        r == (a@ == b@),
{
    let r = a.character == b.character && classes_eq(&a.classes, &b.classes) && classes_eq(
        &a.fallback,
        &b.fallback,
    );
    proof {
        if r {
            assert(a@ =~= b@);
        }
    }
    r
}

} // verus!
