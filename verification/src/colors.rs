//! Accent colours of agents, statuses and rooms, as sRGB bytes.
use vstd::prelude::*;
use vstd::utf8::encode_utf8;
use vstd::wrapping::usize_specs;

verus! {

/// An sRGB colour, one byte per channel.
pub type Rgb = (u8, u8, u8);

/// Whether `a` and `b` hold the same characters.
fn same_text(a: &str, b: &str) -> (eq: bool)
    ensures
        eq == (a@ == b@),
{
    a.to_owned() == b.to_owned()
}

/// The accent colour of the agent called `name`.
pub open spec fn agent_rgb(name: Seq<char>) -> Rgb {
    if name == "neo"@ {
        (100, 181, 246)
    } else if name == "nexus"@ {
        (129, 199, 132)
    } else if name == "hermes"@ {
        (255, 183, 77)
    } else if name == "pulse"@ {
        (240, 98, 146)
    } else if name == "mother"@ {
        (206, 147, 216)
    } else if name == "odin"@ {
        (77, 182, 172)
    } else {
        (144, 164, 174)
    }
}

/// Accent colour of an agent: six named agents have their own, all others blue grey.
pub fn agent_color(name: &str) -> (c: Rgb)
    ensures
        c == agent_rgb(name@),
{
    if same_text(name, "neo") {
        (100, 181, 246)
    } else if same_text(name, "nexus") {
        (129, 199, 132)
    } else if same_text(name, "hermes") {
        (255, 183, 77)
    } else if same_text(name, "pulse") {
        (240, 98, 146)
    } else if same_text(name, "mother") {
        (206, 147, 216)
    } else if same_text(name, "odin") {
        (77, 182, 172)
    } else {
        (144, 164, 174)
    }
}

/// Colour of an agent's status light.
#[derive(Clone, Copy, PartialEq, Eq, Debug, Structural)]
pub enum StatusTint {
    /// An opaque colour.
    Solid(u8, u8, u8),
    /// White at 30 percent opacity.
    DimWhite,
}

/// The status light's colour for `status`.
pub open spec fn status_tint(status: Seq<char>) -> StatusTint {
    if status == "busy"@ {
        StatusTint::Solid(253, 216, 53)
    } else if status == "ready"@ {
        StatusTint::Solid(76, 175, 80)
    } else {
        StatusTint::DimWhite
    }
}

/// Status light colour: amber when busy, green when ready, dim white otherwise.
pub fn status_color(status: &str) -> (t: StatusTint)
    ensures
        t == status_tint(status@),
{
    if same_text(status, "busy") {
        StatusTint::Solid(253, 216, 53)
    } else if same_text(status, "ready") {
        StatusTint::Solid(76, 175, 80)
    } else {
        StatusTint::DimWhite
    }
}

/// The hash of a room name's bytes: starting from 0, each byte is added to 31 times the
/// hash so far, with `usize` wrap-around.
pub open spec fn name_hash(bytes: Seq<u8>) -> usize
    decreases bytes.len(),
{
    if bytes.len() == 0 {
        0
    } else {
        usize_specs::wrapping_add(
            usize_specs::wrapping_mul(name_hash(bytes.drop_last()), 31),
            bytes.last() as usize,
        )
    }
}

/// The ten colours that rooms of unknown names take.
pub open spec fn room_palette() -> Seq<Rgb> {
    seq![
        (100u8, 181u8, 246u8),
        (129, 199, 132),
        (255, 183, 77),
        (240, 98, 146),
        (206, 147, 216),
        (77, 182, 172),
        (255, 138, 101),
        (149, 117, 205),
        (79, 195, 247),
        (220, 231, 117),
    ]
}

/// Colour of a room whose name, lower-cased, is `lowered` and whose UTF-8 bytes are
/// `bytes`: four known rooms have their own colour, every other name the palette entry
/// picked by its hash.
pub open spec fn room_rgb(lowered: Seq<char>, bytes: Seq<u8>) -> Rgb {
    if lowered == "oracles"@ {
        (100, 181, 246)
    } else if lowered == "brewing"@ {
        (121, 85, 72)
    } else if lowered == "tools"@ {
        (78, 182, 172)
    } else if lowered == "watchers"@ {
        (255, 183, 77)
    } else {
        room_palette()[(name_hash(bytes) % 10) as int]
    }
}

/// Whether the lower-cased name `lowered` is one of the four rooms with a colour of their own.
pub open spec fn known_room(lowered: Seq<char>) -> bool {
    lowered == "oracles"@ || lowered == "brewing"@ || lowered == "tools"@ || lowered == "watchers"@
}

/// The colour of a room whose name is not a known room is the palette entry picked by the
/// hash of the name's bytes as written: it does not depend on the lower-cased name, so
/// names that differ only in letter case may get different colours.
pub proof fn lemma_unknown_room_colour(lowered: Seq<char>, other: Seq<char>, bytes: Seq<u8>)
    requires
        !known_room(lowered),
        !known_room(other),
    ensures
        room_rgb(lowered, bytes) == room_palette()[(name_hash(bytes) % 10) as int],
        room_rgb(lowered, bytes) == room_rgb(other, bytes),
{
}

/// Names what `str::to_lowercase` returns for a string: its Unicode lower-case mapping.
pub uninterp spec fn lowercase(s: Seq<char>) -> Seq<char>;

/// Calls `str::to_lowercase`. Claimed: the result is a function of the characters of `s`
/// alone, named `lowercase`; nothing more is stated of it.
#[verifier::external_body]
fn to_lowercase(s: &str) -> (r: String)
    ensures
        r@ == lowercase(s@),
{
    s.to_lowercase()
}

/// Hash of a room name's bytes, as `name_hash`.
pub fn hash_name_bytes(bytes: &[u8]) -> (h: usize)
    ensures
        h == name_hash(bytes@),
{
    let mut h: usize = 0;
    let mut i: usize = 0;
    while i < bytes.len()
        invariant
            i <= bytes@.len(),
            h == name_hash(bytes@.take(i as int)),
        decreases bytes@.len() - i,
    {
        proof {
            assert(bytes@.take(i + 1).drop_last() =~= bytes@.take(i as int));
        }
        h = h.wrapping_mul(31).wrapping_add(bytes[i] as usize);
        i = i + 1;
    }
    proof {
        assert(bytes@.take(bytes@.len() as int) =~= bytes@);
    }
    h
}

/// Colour of a room called `name`, given its lower-cased name `lowered`.
pub fn room_color_of(name: &str, lowered: &str) -> (c: Rgb)
    ensures
        c == room_rgb(lowered@, encode_utf8(name@)),
        !known_room(lowered@) ==> c == room_palette()[(name_hash(encode_utf8(name@)) % 10) as int],
{
    if same_text(lowered, "oracles") {
        return (100, 181, 246);
    }
    if same_text(lowered, "brewing") {
        return (121, 85, 72);
    }
    if same_text(lowered, "tools") {
        return (78, 182, 172);
    }
    if same_text(lowered, "watchers") {
        return (255, 183, 77);
    }
    let palette: [Rgb; 10] = [
        (100, 181, 246),
        (129, 199, 132),
        (255, 183, 77),
        (240, 98, 146),
        (206, 147, 216),
        (77, 182, 172),
        (255, 138, 101),
        (149, 117, 205),
        (79, 195, 247),
        (220, 231, 117),
    ];
    assert(palette@ == room_palette());
    let hash = hash_name_bytes(name.as_bytes());
    palette[hash % 10]
}

/// Colour of a room called `name`: the known rooms (named in any letter case) have their
/// own colour, any other session a palette colour picked by the hash of its name.
pub fn room_color(name: &str) -> (c: Rgb)
    ensures
        c == room_rgb(lowercase(name@), encode_utf8(name@)),
        !known_room(lowercase(name@)) ==> c == room_palette()[(name_hash(encode_utf8(name@)) % 10) as int],
{
    let lowered = to_lowercase(name);
    room_color_of(name, lowered.as_str())
}

} // verus!
