use crate::color::Color;
use vstd::prelude::*;

verus! {

/// How condensed or expanded a face is.
#[derive(Clone, Copy, Debug, PartialEq, Eq, Structural, Hash)]
pub enum Stretch {
    UltraCondensed,
    ExtraCondensed,
    Condensed,
    SemiCondensed,
    Normal,
    SemiExpanded,
    Expanded,
    ExtraExpanded,
    UltraExpanded,
}

/// Slant of a face.
#[derive(Clone, Copy, Debug, PartialEq, Eq, Structural, Hash)]
pub enum Style {
    Normal,
    Italic,
    Oblique,
}

/// Numeric weight of a face (400 is regular, 700 is bold).
#[derive(Clone, Copy, Debug, PartialEq, Eq, Structural, Hash)]
pub struct Weight(pub u16);

/// Weight of a regular face.
pub const NORMAL_WEIGHT: u16 = 400;

/// A font family request, borrowing the family name.
#[derive(Clone, Copy, Debug, Hash)]
pub enum Family<'a> {
    Name(&'a str),
    Serif,
    SansSerif,
    Cursive,
    Fantasy,
    Monospace,
}

/// An owned version of [`Family`].
#[derive(Debug, Hash)]
pub enum FamilyOwned {
    Name(String),
    Serif,
    SansSerif,
    Cursive,
    Fantasy,
    Monospace,
}

/// Two family requests name the same family.
pub open spec fn same_family(x: Family, y: Family) -> bool {
    match (x, y) {
        (Family::Name(a), Family::Name(b)) => a@ == b@,
        (Family::Serif, Family::Serif) => true,
        (Family::SansSerif, Family::SansSerif) => true,
        (Family::Cursive, Family::Cursive) => true,
        (Family::Fantasy, Family::Fantasy) => true,
        (Family::Monospace, Family::Monospace) => true,
        _ => false,
    }
}

/// Two owned families name the same family.
pub open spec fn same_family_owned(x: FamilyOwned, y: FamilyOwned) -> bool {
    match (x, y) {
        (FamilyOwned::Name(a), FamilyOwned::Name(b)) => a@ == b@,
        (FamilyOwned::Serif, FamilyOwned::Serif) => true,
        (FamilyOwned::SansSerif, FamilyOwned::SansSerif) => true,
        (FamilyOwned::Cursive, FamilyOwned::Cursive) => true,
        (FamilyOwned::Fantasy, FamilyOwned::Fantasy) => true,
        (FamilyOwned::Monospace, FamilyOwned::Monospace) => true,
        _ => false,
    }
}

/// `o` is an owned copy of the borrowed family `f`.
pub open spec fn family_owns(o: FamilyOwned, f: Family) -> bool {
    match (o, f) {
        (FamilyOwned::Name(a), Family::Name(b)) => a@ == b@,
        (FamilyOwned::Serif, Family::Serif) => true,
        (FamilyOwned::SansSerif, Family::SansSerif) => true,
        (FamilyOwned::Cursive, Family::Cursive) => true,
        (FamilyOwned::Fantasy, Family::Fantasy) => true,
        (FamilyOwned::Monospace, Family::Monospace) => true,
        _ => false,
    }
}

/// Compares two strings character by character.
fn str_eq(a: &str, b: &str) -> (r: bool)
    ensures
        r == (a@ == b@),
{
    let n = a.unicode_len();
    if n != b.unicode_len() {
        return false;
    }
    let mut i: usize = 0;
    while i < n
        invariant
            n == a@.len(),
            n == b@.len(),
            i <= n,
            forall|j: int| 0 <= j < i ==> a@[j] == b@[j],
        decreases n - i,
    {
        if a.get_char(i) != b.get_char(i) {
            return false;
        }
        i = i + 1;
    }
    assert(a@ =~= b@);
    true
}

impl<'a> PartialEq for Family<'a> {
    fn eq(&self, other: &Self) -> (r: bool) {
        match (self, other) {
            (Family::Name(a), Family::Name(b)) => str_eq(a, b),
            (Family::Serif, Family::Serif) => true,
            (Family::SansSerif, Family::SansSerif) => true,
            (Family::Cursive, Family::Cursive) => true,
            (Family::Fantasy, Family::Fantasy) => true,
            (Family::Monospace, Family::Monospace) => true,
            _ => false,
        }
    }
}

impl<'a> vstd::std_specs::cmp::PartialEqSpecImpl for Family<'a> {
    open spec fn obeys_eq_spec() -> bool {
        true
    }

    open spec fn eq_spec(&self, other: &Self) -> bool {
        same_family(*self, *other)
    }
}

impl<'a> Eq for Family<'a> {
}

impl PartialEq for FamilyOwned {
    fn eq(&self, other: &Self) -> (r: bool) {
        match (self, other) {
            (FamilyOwned::Name(a), FamilyOwned::Name(b)) => str_eq(a.as_str(), b.as_str()),
            (FamilyOwned::Serif, FamilyOwned::Serif) => true,
            (FamilyOwned::SansSerif, FamilyOwned::SansSerif) => true,
            (FamilyOwned::Cursive, FamilyOwned::Cursive) => true,
            (FamilyOwned::Fantasy, FamilyOwned::Fantasy) => true,
            (FamilyOwned::Monospace, FamilyOwned::Monospace) => true,
            _ => false,
        }
    }
}

impl vstd::std_specs::cmp::PartialEqSpecImpl for FamilyOwned {
    open spec fn obeys_eq_spec() -> bool {
        true
    }

    open spec fn eq_spec(&self, other: &Self) -> bool {
        same_family_owned(*self, *other)
    }
}

impl Eq for FamilyOwned {
}

impl Clone for FamilyOwned {
    fn clone(&self) -> (r: Self)
        ensures
            r == *self,
    {
        match self {
            FamilyOwned::Name(name) => FamilyOwned::Name(name.clone()),
            FamilyOwned::Serif => FamilyOwned::Serif,
            FamilyOwned::SansSerif => FamilyOwned::SansSerif,
            FamilyOwned::Cursive => FamilyOwned::Cursive,
            FamilyOwned::Fantasy => FamilyOwned::Fantasy,
            FamilyOwned::Monospace => FamilyOwned::Monospace,
        }
    }
}

impl FamilyOwned {
    /// An owned copy of `family`.
    pub fn new(family: Family) -> (r: Self)
        ensures
            family_owns(r, family),
    {
        match family {
            Family::Name(name) => FamilyOwned::Name(name.to_owned()),
            Family::Serif => FamilyOwned::Serif,
            Family::SansSerif => FamilyOwned::SansSerif,
            Family::Cursive => FamilyOwned::Cursive,
            Family::Fantasy => FamilyOwned::Fantasy,
            Family::Monospace => FamilyOwned::Monospace,
        }
    }

    /// A borrowed view of this family.
    pub fn as_family(&self) -> (r: Family<'_>)
        ensures
            family_owns(*self, r),
    {
        match self {
            FamilyOwned::Name(name) => Family::Name(name.as_str()),
            FamilyOwned::Serif => Family::Serif,
            FamilyOwned::SansSerif => Family::SansSerif,
            FamilyOwned::Cursive => Family::Cursive,
            FamilyOwned::Fantasy => Family::Fantasy,
            FamilyOwned::Monospace => Family::Monospace,
        }
    }
}

/// What a face offers to a style request: its PostScript name and its
/// style, weight and stretch.
#[derive(Clone, Debug)]
pub struct FaceDescriptor {
    pub post_script_name: String,
    pub style: Style,
    pub weight: Weight,
    pub stretch: Stretch,
}

/// The marker in a face's PostScript name that flags an emoji face.
pub open spec fn emoji_marker() -> Seq<char> {
    seq!['E', 'm', 'o', 'j', 'i']
}

/// `t` occurs in `s` as a contiguous run.
pub open spec fn has_infix(s: Seq<char>, t: Seq<char>) -> bool {
    exists|i: int| 0 <= i && i + t.len() <= s.len() && #[trigger] s.subrange(i, i + t.len()) == t
}

/// Whether `s` holds the emoji marker.
fn contains_emoji_marker(s: &str) -> (r: bool)
    ensures
        r == has_infix(s@, emoji_marker()),
{
    let marker: [char; 5] = ['E', 'm', 'o', 'j', 'i'];
    assert(marker@ =~= emoji_marker());
    let n = s.unicode_len();
    if n < 5 {
        return false;
    }
    let mut i: usize = 0;
    while i <= n - 5
        invariant
            n == s@.len(),
            n >= 5,
            i <= n - 4,
            marker@ == emoji_marker(),
            forall|j: int| 0 <= j < i ==> #[trigger] s@.subrange(j, j + 5) != emoji_marker(),
        decreases n - i,
    {
        let mut k: usize = 0;
        let mut ok = true;
        while k < 5
            invariant
                i + 5 <= n,
                n == s@.len(),
                k <= 5,
                marker@ == emoji_marker(),
                ok == (forall|m: int| 0 <= m < k ==> s@[i + m] == marker@[m]),
            decreases 5 - k,
        {
            if s.get_char(i + k) != marker[k] {
                ok = false;
            }
            k = k + 1;
        }
        if ok {
            assert(s@.subrange(i as int, i + 5) =~= emoji_marker());
            return true;
        }
        assert(s@.subrange(i as int, i + 5) != emoji_marker()) by {
            let m = choose|m: int| 0 <= m < 5 && s@[i + m] != marker@[m];
            assert(s@.subrange(i as int, i + 5)[m] == s@[i + m]);
        }
        i = i + 1;
    }
    assert(!has_infix(s@, emoji_marker())) by {
        if has_infix(s@, emoji_marker()) {
            let j = choose|j: int|
                0 <= j && j + 5 <= s@.len() && #[trigger] s@.subrange(j, j + 5) == emoji_marker();
            assert(emoji_marker().len() == 5);
            assert(j < i);
        }
    }
    false
}

/// Text attributes, borrowing the family name.
///
/// The scale factor is held as the bit pattern of an IEEE-754 single, so that
/// comparing it compares under the total order of floats: equal exactly when
/// the bit patterns are equal, NaN included.
#[derive(Clone, Copy, Debug, Hash)]
pub struct Attrs<'a> {
    pub color_opt: Option<Color>,
    pub family: Family<'a>,
    pub stretch: Stretch,
    pub style: Style,
    pub weight: Weight,
    pub scaling_bits: u32,
    pub metadata: usize,
}

/// The bit pattern of the scale factor 1.0.
pub const UNIT_SCALING_BITS: u32 = 0x3F80_0000;

/// Two attribute sets agree on every field.
pub open spec fn same_attrs(x: Attrs, y: Attrs) -> bool {
    &&& x.color_opt == y.color_opt
    &&& same_family(x.family, y.family)
    &&& x.stretch == y.stretch
    &&& x.style == y.style
    &&& x.weight == y.weight
    &&& x.scaling_bits == y.scaling_bits
    &&& x.metadata == y.metadata
}

/// Two attribute sets may be shaped as one run: they agree on everything but
/// color and metadata.
pub open spec fn shapes_with(x: Attrs, y: Attrs) -> bool {
    &&& same_family(x.family, y.family)
    &&& x.stretch == y.stretch
    &&& x.style == y.style
    &&& x.weight == y.weight
    &&& x.scaling_bits == y.scaling_bits
}

/// A face suits a request when its name flags an emoji face, or when its
/// style, weight and stretch are exactly those requested.
pub open spec fn face_suits(a: Attrs, face: FaceDescriptor) -> bool {
    has_infix(face.post_script_name@, emoji_marker()) || (face.style == a.style
        && face.weight == a.weight && face.stretch == a.stretch)
}

impl<'a> PartialEq for Attrs<'a> {
    fn eq(&self, other: &Self) -> (r: bool) {
        self.color_opt == other.color_opt && self.family == other.family && self.stretch
            == other.stretch && self.style == other.style && self.weight == other.weight
            && self.scaling_bits == other.scaling_bits && self.metadata == other.metadata
    }
}

impl<'a> vstd::std_specs::cmp::PartialEqSpecImpl for Attrs<'a> {
    open spec fn obeys_eq_spec() -> bool {
        true
    }

    open spec fn eq_spec(&self, other: &Self) -> bool {
        same_attrs(*self, *other)
    }
}

impl<'a> Eq for Attrs<'a> {
}

impl<'a> Attrs<'a> {
    /// A regular sans-serif request: no color, normal stretch, style and
    /// weight, scale 1.0, metadata 0.
    pub fn new() -> (r: Self)
        ensures
            r.color_opt is None,
            r.family is SansSerif,
            r.stretch == Stretch::Normal,
            r.style == Style::Normal,
            r.weight == Weight(NORMAL_WEIGHT),
            r.scaling_bits == UNIT_SCALING_BITS,
            r.metadata == 0,
    {
        Attrs {
            color_opt: None,
            family: Family::SansSerif,
            stretch: Stretch::Normal,
            style: Style::Normal,
            weight: Weight(NORMAL_WEIGHT),
            scaling_bits: UNIT_SCALING_BITS,
            metadata: 0,
        }
    }

    /// Set the color.
    pub fn color(self, color: Color) -> (r: Self)
        ensures
            r == (Attrs { color_opt: Some(color), ..self }),
    {
        Attrs { color_opt: Some(color), ..self }
    }

    /// Set the family.
    pub fn family(self, family: Family<'a>) -> (r: Self)
        ensures
            r == (Attrs { family, ..self }),
    {
        Attrs { family, ..self }
    }

    /// Set the stretch.
    pub fn stretch(self, stretch: Stretch) -> (r: Self)
        ensures
            r == (Attrs { stretch, ..self }),
    {
        Attrs { stretch, ..self }
    }

    /// Set the style.
    pub fn style(self, style: Style) -> (r: Self)
        ensures
            r == (Attrs { style, ..self }),
    {
        Attrs { style, ..self }
    }

    /// Set the weight.
    pub fn weight(self, weight: Weight) -> (r: Self)
        ensures
            r == (Attrs { weight, ..self }),
    {
        Attrs { weight, ..self }
    }

    /// Set the scale factor, given as the bit pattern of an IEEE-754 single.
    pub fn scaling(self, scaling_bits: u32) -> (r: Self)
        ensures
            r == (Attrs { scaling_bits, ..self }),
    {
        Attrs { scaling_bits, ..self }
    }

    /// Set the metadata.
    pub fn metadata(self, metadata: usize) -> (r: Self)
        ensures
            r == (Attrs { metadata, ..self }),
    {
        Attrs { metadata, ..self }
    }

    /// Whether `face` suits this request.
    pub fn matches(&self, face: &FaceDescriptor) -> (r: bool)
        ensures
            r == face_suits(*self, *face),
    {
        contains_emoji_marker(face.post_script_name.as_str()) || (face.style == self.style
            && face.weight == self.weight && face.stretch == self.stretch)
    }

    /// Whether this set of attributes can be shaped together with `other`.
    pub fn compatible(&self, other: &Self) -> (r: bool)
        ensures
            r == shapes_with(*self, *other),
    {
        self.family == other.family && self.stretch == other.stretch && self.style
            == other.style && self.weight == other.weight && self.scaling_bits
            == other.scaling_bits
    }
}

/// An owned version of [`Attrs`].
#[derive(Debug, Hash)]
pub struct AttrsOwned {
    pub color_opt: Option<Color>,
    pub family_owned: FamilyOwned,
    pub stretch: Stretch,
    pub style: Style,
    pub weight: Weight,
    pub scaling_bits: u32,
    pub metadata: usize,
}

/// `o` is an owned copy of `a`.
pub open spec fn attrs_owns(o: AttrsOwned, a: Attrs) -> bool {
    &&& o.color_opt == a.color_opt
    &&& family_owns(o.family_owned, a.family)
    &&& o.stretch == a.stretch
    &&& o.style == a.style
    &&& o.weight == a.weight
    &&& o.scaling_bits == a.scaling_bits
    &&& o.metadata == a.metadata
}

/// Two owned attribute sets agree on every field.
pub open spec fn same_attrs_owned(x: AttrsOwned, y: AttrsOwned) -> bool {
    &&& x.color_opt == y.color_opt
    &&& same_family_owned(x.family_owned, y.family_owned)
    &&& x.stretch == y.stretch
    &&& x.style == y.style
    &&& x.weight == y.weight
    &&& x.scaling_bits == y.scaling_bits
    &&& x.metadata == y.metadata
}

impl PartialEq for AttrsOwned {
    fn eq(&self, other: &Self) -> (r: bool) {
        self.color_opt == other.color_opt && self.family_owned == other.family_owned
            && self.stretch == other.stretch && self.style == other.style && self.weight
            == other.weight && self.scaling_bits == other.scaling_bits && self.metadata
            == other.metadata
    }
}

impl vstd::std_specs::cmp::PartialEqSpecImpl for AttrsOwned {
    open spec fn obeys_eq_spec() -> bool {
        true
    }

    open spec fn eq_spec(&self, other: &Self) -> bool {
        same_attrs_owned(*self, *other)
    }
}

impl Eq for AttrsOwned {
}

impl Clone for AttrsOwned {
    fn clone(&self) -> (r: Self)
        ensures
            r == *self,
    {
        AttrsOwned {
            color_opt: self.color_opt,
            family_owned: self.family_owned.clone(),
            stretch: self.stretch,
            style: self.style,
            weight: self.weight,
            scaling_bits: self.scaling_bits,
            metadata: self.metadata,
        }
    }
}

impl AttrsOwned {
    /// An owned copy of `attrs`.
    pub fn new(attrs: Attrs) -> (r: Self)
        ensures
            attrs_owns(r, attrs),
    {
        AttrsOwned {
            color_opt: attrs.color_opt,
            family_owned: FamilyOwned::new(attrs.family),
            stretch: attrs.stretch,
            style: attrs.style,
            weight: attrs.weight,
            scaling_bits: attrs.scaling_bits,
            metadata: attrs.metadata,
        }
    }

    /// A borrowed view of these attributes.
    pub fn as_attrs(&self) -> (r: Attrs<'_>)
        ensures
            attrs_owns(*self, r),
    {
        Attrs {
            color_opt: self.color_opt,
            family: self.family_owned.as_family(),
            stretch: self.stretch,
            style: self.style,
            weight: self.weight,
            scaling_bits: self.scaling_bits,
            metadata: self.metadata,
        }
    }
}

} // verus!
