//! Where the scene of each asset key is stored.
use vstd::prelude::*;

verus! {

/// The index of the first `/` of `s` at or after `i`, or the length of `s` if there is none.
pub open spec fn slash_from(s: Seq<char>, i: nat) -> nat
    decreases s.len() - i,
{
    if i >= s.len() {
        s.len()
    } else if s[i as int] == '/' {
        i
    } else {
        slash_from(s, i + 1)
    }
}

/// The first `/`-separated segment of a key.
pub open spec fn first_segment(key: Seq<char>) -> Seq<char> {
    key.subrange(0, slash_from(key, 0) as int)
}

/// The key has a second segment: it holds a `/`.
pub open spec fn has_second_segment(key: Seq<char>) -> bool {
    slash_from(key, 0) < key.len()
}

/// The text between the first and the second `/` of a key (or its end).
pub open spec fn second_segment(key: Seq<char>) -> Seq<char> {
    let p = slash_from(key, 0);
    key.subrange(p + 1int, slash_from(key, p + 1) as int)
}

/// The scene path, below the asset folder and without extension, of a key: its first
/// segment names the kind of asset and its second segment, where the kind needs one, the
/// variant. `None` for a key of no known kind, or one that lacks a needed variant.
pub open spec fn asset_subpath(key: Seq<char>) -> Option<Seq<char>> {
    let k0 = first_segment(key);
    let k1 = second_segment(key);
    let has1 = has_second_segment(key);
    if k0 == "player"@ {
        if has1 { Some("entities/player/"@ + k1) } else { None }
    } else if k0 == "goblin"@ || k0 == "skeleton"@ {
        if has1 { Some("entities/enemies/"@ + k0 + "/"@ + k1) } else { None }
    } else if k0 == "potion"@ {
        if has1 { Some("entities/items/potions/"@ + k1) } else { None }
    } else if k0 == "weapon"@ {
        if has1 { Some("entities/items/weapons/"@ + k1) } else { None }
    } else if k0 == "door"@ {
        if has1 { Some("map/"@ + k0 + "_"@ + k1) } else { None }
    } else if k0 == "interact_box"@ {
        Some("entities/items/interact_box"@)
    } else if k0 == "room"@ || k0 == "labyrinth"@ {
        Some("map/"@ + k0)
    } else {
        None
    }
}

/// The full resource path of the scene of a key.
pub open spec fn spec_asset_path(key: Seq<char>) -> Option<Seq<char>> {
    match asset_subpath(key) {
        Some(p) => Some("res://assets/"@ + p + ".tscn"@),
        None => None,
    }
}

/// No `/` stands in `s`.
pub open spec fn no_slash(s: Seq<char>) -> bool {
    forall|k: int| 0 <= k < s.len() ==> s[k] != '/'
}

/// The first `/` at or after `i` is at `j` when none stands in between and `j` holds one
/// or is the end.
proof fn lemma_slash_at(s: Seq<char>, i: nat, j: nat)
    requires
        i <= j <= s.len(),
        forall|k: int| i <= k < j ==> s[k] != '/',
        j == s.len() || s[j as int] == '/',
    ensures
        slash_from(s, i) == j,
    decreases j - i,
{
    if i < j {
        lemma_slash_at(s, i + 1, j);
    }
}

/// A key made of a segment, a `/` and a second segment, neither holding a `/`, splits back
/// into those two segments.
pub proof fn lemma_key_segments(p: Seq<char>, v: Seq<char>)
    requires
        no_slash(p),
        no_slash(v),
    ensures
        first_segment(p + "/"@ + v) == p,
        has_second_segment(p + "/"@ + v),
        second_segment(p + "/"@ + v) == v,
{
    reveal_strlit("/");
    let key = p + "/"@ + v;
    assert(key[p.len() as int] == '/');
    lemma_slash_at(key, 0, p.len());
    lemma_slash_at(key, p.len() + 1, key.len());
    assert(key.subrange(0, p.len() as int) =~= p);
    assert(key.subrange(p.len() + 1int, key.len() as int) =~= v);
}

/// The scene of a key `kind/variant` is named by its variant: a door variant `v` lies at
/// `res://assets/map/door_v.tscn`, a player's at `res://assets/entities/player/v.tscn`, an
/// enemy's in the folder of its kind, a potion's and a weapon's in theirs. So two keys of
/// one kind with different variants give different paths.
pub proof fn lemma_variant_paths(v: Seq<char>)
    requires
        no_slash(v),
    ensures
        spec_asset_path("door"@ + "/"@ + v) == Some("res://assets/map/door_"@ + v + ".tscn"@),
        spec_asset_path("player"@ + "/"@ + v) == Some(
            "res://assets/entities/player/"@ + v + ".tscn"@,
        ),
        spec_asset_path("goblin"@ + "/"@ + v) == Some(
            "res://assets/entities/enemies/goblin/"@ + v + ".tscn"@,
        ),
        spec_asset_path("skeleton"@ + "/"@ + v) == Some(
            "res://assets/entities/enemies/skeleton/"@ + v + ".tscn"@,
        ),
        spec_asset_path("potion"@ + "/"@ + v) == Some(
            "res://assets/entities/items/potions/"@ + v + ".tscn"@,
        ),
        spec_asset_path("weapon"@ + "/"@ + v) == Some(
            "res://assets/entities/items/weapons/"@ + v + ".tscn"@,
        ),
{
    reveal_strlit("door");
    reveal_strlit("player");
    reveal_strlit("goblin");
    reveal_strlit("skeleton");
    reveal_strlit("potion");
    reveal_strlit("weapon");
    reveal_strlit("room");
    reveal_strlit("labyrinth");
    reveal_strlit("interact_box");
    reveal_strlit("/");
    reveal_strlit("_");
    reveal_strlit(".tscn");
    reveal_strlit("res://assets/");
    reveal_strlit("map/");
    reveal_strlit("entities/player/");
    reveal_strlit("entities/enemies/");
    reveal_strlit("entities/items/potions/");
    reveal_strlit("entities/items/weapons/");
    reveal_strlit("res://assets/map/door_");
    reveal_strlit("res://assets/entities/player/");
    reveal_strlit("res://assets/entities/enemies/goblin/");
    reveal_strlit("res://assets/entities/enemies/skeleton/");
    reveal_strlit("res://assets/entities/items/potions/");
    reveal_strlit("res://assets/entities/items/weapons/");
    assert("potion"@[1] != "player"@[1]);
    assert("potion"@[0] != "goblin"@[0]);
    assert("potion"@.len() != "skeleton"@.len());
    lemma_key_segments("door"@, v);
    lemma_key_segments("player"@, v);
    lemma_key_segments("goblin"@, v);
    lemma_key_segments("skeleton"@, v);
    lemma_key_segments("potion"@, v);
    lemma_key_segments("weapon"@, v);
    assert("res://assets/"@ + ("map/"@ + "door"@ + "_"@ + v) + ".tscn"@ =~= "res://assets/map/door_"@
        + v + ".tscn"@);
    assert("res://assets/"@ + ("entities/player/"@ + v) + ".tscn"@
        =~= "res://assets/entities/player/"@ + v + ".tscn"@);
    assert("res://assets/"@ + ("entities/enemies/"@ + "goblin"@ + "/"@ + v) + ".tscn"@
        =~= "res://assets/entities/enemies/goblin/"@ + v + ".tscn"@);
    assert("res://assets/"@ + ("entities/enemies/"@ + "skeleton"@ + "/"@ + v) + ".tscn"@
        =~= "res://assets/entities/enemies/skeleton/"@ + v + ".tscn"@);
    assert("res://assets/"@ + ("entities/items/potions/"@ + v) + ".tscn"@
        =~= "res://assets/entities/items/potions/"@ + v + ".tscn"@);
    assert("res://assets/"@ + ("entities/items/weapons/"@ + v) + ".tscn"@
        =~= "res://assets/entities/items/weapons/"@ + v + ".tscn"@);
}

/// The keys of one segment: `room` and `labyrinth` lie under `res://assets/map/`,
/// `interact_box` under `res://assets/entities/items/`; a kind that needs a variant, given
/// none, names no asset, and neither does a key whose kind is none of the known ones.
pub proof fn lemma_single_segment_paths(p: Seq<char>, v: Seq<char>)
    requires
        no_slash(p),
        no_slash(v),
        p != "player"@,
        p != "goblin"@,
        p != "skeleton"@,
        p != "potion"@,
        p != "weapon"@,
        p != "door"@,
        p != "interact_box"@,
        p != "room"@,
        p != "labyrinth"@,
    ensures
        spec_asset_path("room"@) == Some("res://assets/map/room.tscn"@),
        spec_asset_path("labyrinth"@) == Some("res://assets/map/labyrinth.tscn"@),
        spec_asset_path("interact_box"@) == Some("res://assets/entities/items/interact_box.tscn"@),
        spec_asset_path("door"@) is None,
        spec_asset_path("player"@) is None,
        spec_asset_path(p) is None,
        spec_asset_path(p + "/"@ + v) is None,
{
    reveal_strlit("door");
    reveal_strlit("player");
    reveal_strlit("goblin");
    reveal_strlit("skeleton");
    reveal_strlit("potion");
    reveal_strlit("weapon");
    reveal_strlit("room");
    reveal_strlit("labyrinth");
    reveal_strlit("interact_box");
    reveal_strlit(".tscn");
    reveal_strlit("res://assets/");
    reveal_strlit("map/");
    reveal_strlit("entities/items/interact_box");
    reveal_strlit("res://assets/map/room.tscn");
    reveal_strlit("res://assets/map/labyrinth.tscn");
    reveal_strlit("res://assets/entities/items/interact_box.tscn");
    lemma_whole_key("room"@);
    lemma_whole_key("labyrinth"@);
    lemma_whole_key("interact_box"@);
    lemma_whole_key("door"@);
    lemma_whole_key("player"@);
    lemma_whole_key(p);
    lemma_key_segments(p, v);
    assert("room"@[0] != "labyrinth"@[0]);
    assert("room"@[0] != "interact_box"@[0]);
    assert("room"@[0] != "player"@[0]);
    assert("room"@[0] != "goblin"@[0]);
    assert("room"@[0] != "skeleton"@[0]);
    assert("room"@[0] != "potion"@[0]);
    assert("room"@[0] != "weapon"@[0]);
    assert("room"@[0] != "door"@[0]);
    assert("labyrinth"@[0] != "interact_box"@[0]);
    assert("labyrinth"@[0] != "player"@[0]);
    assert("labyrinth"@[0] != "goblin"@[0]);
    assert("labyrinth"@[0] != "skeleton"@[0]);
    assert("labyrinth"@[0] != "potion"@[0]);
    assert("labyrinth"@[0] != "weapon"@[0]);
    assert("labyrinth"@[0] != "door"@[0]);
    assert("interact_box"@[0] != "player"@[0]);
    assert("interact_box"@[0] != "goblin"@[0]);
    assert("interact_box"@[0] != "skeleton"@[0]);
    assert("interact_box"@[0] != "potion"@[0]);
    assert("interact_box"@[0] != "weapon"@[0]);
    assert("interact_box"@[0] != "door"@[0]);
    assert("door"@[0] != "player"@[0]);
    assert("door"@[0] != "goblin"@[0]);
    assert("door"@[0] != "skeleton"@[0]);
    assert("door"@[0] != "potion"@[0]);
    assert("door"@[0] != "weapon"@[0]);
    assert("res://assets/"@ + ("map/"@ + "room"@) + ".tscn"@ =~= "res://assets/map/room.tscn"@);
    assert("res://assets/"@ + ("map/"@ + "labyrinth"@) + ".tscn"@ =~= "res://assets/map/labyrinth.tscn"@);
    assert("res://assets/"@ + "entities/items/interact_box"@ + ".tscn"@
        =~= "res://assets/entities/items/interact_box.tscn"@);
}

/// A key without a `/` is one segment, with no second.
proof fn lemma_whole_key(p: Seq<char>)
    requires
        no_slash(p),
    ensures
        first_segment(p) == p,
        !has_second_segment(p),
{
    lemma_slash_at(p, 0, p.len());
    assert(p.subrange(0, p.len() as int) =~= p);
}

fn str_eq(a: &str, b: &str) -> (r: bool)
    ensures
        r == (a@ == b@),
{
    let n = a.unicode_len();
    if n != b.unicode_len() {
        return false;
    }
    let mut i: usize = 0;
    while i < n
        invariant
            n == a@.len(),
            n == b@.len(),
            0 <= i <= n,
            forall|k: int| 0 <= k < i ==> a@[k] == b@[k],
        decreases n - i,
    {
        if a.get_char(i) != b.get_char(i) {
            return false;
        }
        i += 1;
    }
    assert(a@ =~= b@);
    true
}

/// The first `/` of `s` at or after `from`, or the length of `s`.
fn find_slash(s: &str, from: usize) -> (r: usize)
    requires
        from <= s@.len(),
    ensures
        r == slash_from(s@, from as nat),
        from <= r <= s@.len(),
{
    let n = s.unicode_len();
    let mut i = from;
    while i < n
        invariant
            n == s@.len(),
            from <= i <= n,
            slash_from(s@, from as nat) == slash_from(s@, i as nat),
        decreases n - i,
    {
        if s.get_char(i) == '/' {
            return i;
        }
        i += 1;
    }
    i
}

/// The resource path of the scene stored under `key`, or `None` for a key of no known kind.
fn lookup_asset_path(key: &str) -> (r: Option<String>)
    ensures
        match r {
            Some(p) => spec_asset_path(key@) == Some(p@),
            None => spec_asset_path(key@) is None,
        },
{
    let n = key.unicode_len();
    let p0 = find_slash(key, 0);
    let k0 = key.substring_char(0, p0);
    let has1 = p0 < n;
    let k1 = if has1 {
        let p1 = find_slash(key, p0 + 1);
        key.substring_char(p0 + 1, p1)
    } else {
        key.substring_char(n, n)
    };
    proof {
        if has1 {
            assert(k1@ == second_segment(key@));
        }
    }
    let mut path = String::from_str("res://assets/");
    if str_eq(k0, "player") {
        if !has1 {
            return None;
        }
        path.append("entities/player/");
        path.append(k1);
    } else if str_eq(k0, "goblin") || str_eq(k0, "skeleton") {
        if !has1 {
            return None;
        }
        path.append("entities/enemies/");
        path.append(k0);
        path.append("/");
        path.append(k1);
    } else if str_eq(k0, "potion") {
        if !has1 {
            return None;
        }
        path.append("entities/items/potions/");
        path.append(k1);
    } else if str_eq(k0, "weapon") {
        if !has1 {
            return None;
        }
        path.append("entities/items/weapons/");
        path.append(k1);
    } else if str_eq(k0, "door") {
        if !has1 {
            return None;
        }
        path.append("map/");
        path.append(k0);
        path.append("_");
        path.append(k1);
    } else if str_eq(k0, "interact_box") {
        path.append("entities/items/interact_box");
    } else if str_eq(k0, "room") || str_eq(k0, "labyrinth") {
        path.append("map/");
        path.append(k0);
    } else {
        return None;
    }
    path.append(".tscn");
    Some(path)
}

/// Whether `key` names an asset: its first segment is a known kind, with a second segment
/// where the kind needs one.
pub fn is_known_asset_key(key: &str) -> (r: bool)
    ensures
        r == spec_asset_path(key@) is Some,
{
    lookup_asset_path(key).is_some()
}

/// The resource path of the scene stored under an asset key such as `player/mesh`:
/// `res://assets/<kind path>.tscn`.
pub fn asset_path(key: &str) -> (r: String)
    requires
        spec_asset_path(key@) is Some,
    ensures
        spec_asset_path(key@) == Some(r@),
{
    match lookup_asset_path(key) {
        Some(p) => p,
        None => String::new(),
    }
}

} // verus!
