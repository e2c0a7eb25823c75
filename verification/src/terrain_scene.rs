//! The data of terrain render scripts and their sprites: which codes a
//! script draws, and which frame of an animated sprite shows at a time.
use vstd::prelude::*;
use crate::text::{chars_of, push_str, str_eq, string_of};

verus! {

/// A render script of one terrain family and the codes it draws.
#[derive(Clone, Debug, PartialEq, Eq)]
pub struct TerrainScript {
    pub family: String,
    pub codes: Vec<String>,
    pub source: String,
}

/// Whether a sprite is drawn with the ground or with the world above it.
#[derive(Clone, Copy, Debug, PartialEq, Eq, Structural)]
pub enum TerrainPass {
    Ground,
    World,
}

/// A sprite image and the file that holds it.
#[derive(Clone, Debug, PartialEq, Eq)]
pub struct SpriteAsset {
    pub id: String,
    pub path: String,
}

/// The frames of a sprite: each shows for `frame_ms`, starting `phase_ms`
/// into the cycle.
#[derive(Clone, Debug, PartialEq, Eq)]
pub struct SpriteFrames {
    pub assets: Vec<String>,
    pub frame_ms: u32,
    pub phase_ms: u32,
}

/// The frame of a sprite shown `elapsed_ms` after the start.
pub open spec fn frame_index(f: SpriteFrames, elapsed_ms: u64) -> int {
    ((elapsed_ms + f.phase_ms) / (f.frame_ms as int)) % (f.assets@.len() as int)
}

impl SpriteFrames {
    /// A sprite of one still image.
    pub fn still(asset: &str) -> (r: SpriteFrames)
        ensures
            r.assets@.len() == 1,
            r.assets@[0]@ == asset@,
            r.frame_ms == 1,
            r.phase_ms == 0,
    {
        let mut assets: Vec<String> = Vec::new();
        assets.push(String::from_str(asset));
        SpriteFrames { assets, frame_ms: 1, phase_ms: 0 }
    }

    /// The asset shown `elapsed_ms` after the start.
    pub fn asset_at(&self, elapsed_ms: u64) -> (r: &str)
        requires
            self.frame_ms > 0,
            self.assets@.len() > 0,
            elapsed_ms + self.phase_ms <= u64::MAX,
        ensures
            r@ == self.assets@[frame_index(*self, elapsed_ms)]@,
    {
        let frame = ((elapsed_ms + self.phase_ms as u64) / self.frame_ms as u64) % self.assets.len() as u64;
        self.assets[frame as usize].as_str()
    }
}

/// Image operations applied once when textures are prepared.
#[derive(Clone, Debug, PartialEq, Eq, PartialOrd, Ord)]
pub struct ImageModifiers {
    pub crop: Option<[u32; 4]>,
    pub masks: Vec<String>,
    pub opacity: u8,
}

impl Default for ImageModifiers {
    /// No crop, no masks, fully opaque.
    fn default() -> (r: ImageModifiers)
        ensures
            r.crop is None,
            r.masks@.len() == 0,
            r.opacity == 255,
    {
        ImageModifiers { crop: None, masks: Vec::new(), opacity: 255 }
    }
}

/// Whether `code` is one of `codes`.
pub open spec fn listed(codes: Seq<String>, code: Seq<char>) -> bool {
    exists|i: int| 0 <= i < codes.len() && (#[trigger] codes[i])@ == code
}

/// The first of the base and overlay codes that a script draws.
pub open spec fn spec_matching_code(codes: Seq<String>, base: Seq<char>, overlay: Seq<char>) -> Option<
    Seq<char>,
> {
    if base.len() > 0 && listed(codes, base) {
        Some(base)
    } else if overlay.len() > 0 && listed(codes, overlay) {
        Some(overlay)
    } else {
        None
    }
}

fn is_listed(codes: &[String], code: &str) -> (r: bool)
    ensures
        r == listed(codes@, code@),
{
    let mut i: usize = 0;
    while i < codes.len()
        invariant
            i <= codes@.len(),
            forall|j: int| 0 <= j < i ==> (#[trigger] codes@[j])@ != code@,
        decreases codes@.len() - i,
    {
        if str_eq(codes[i].as_str(), code) {
            return true;
        }
        i = i + 1;
    }
    false
}

/// The code of a hex that a script with `codes` draws: its base, else its
/// overlay.
pub fn matching_code<'a>(codes: &[String], base: &'a str, overlay: &'a str) -> (r: Option<&'a str>)
    ensures
        match r {
            Some(code) => spec_matching_code(codes@, base@, overlay@) == Some(code@),
            None => spec_matching_code(codes@, base@, overlay@) is None,
        },
{
    let b = chars_of(base);
    if b.len() > 0 && is_listed(codes, base) {
        return Some(base);
    }
    let o = chars_of(overlay);
    if o.len() > 0 && is_listed(codes, overlay) {
        return Some(overlay);
    }
    None
}

/// The id of an asset of a family: `family:id`.
pub fn asset_id(family: &str, id: &str) -> (r: String)
    ensures
        r@ == family@ + ":"@ + id@,
{
    let mut v = chars_of(family);
    push_str(&mut v, ":");
    push_str(&mut v, id);
    string_of(&v)
}


/// A still sprite shows its one image at every time.
pub proof fn lemma_still_frame(f: SpriteFrames, elapsed_ms: u64)
    requires
        f.assets@.len() == 1,
        f.frame_ms == 1,
        f.phase_ms == 0,
    ensures
        frame_index(f, elapsed_ms) == 0,
{
}
} // verus!
