use vstd::prelude::*;
use crate::error::AppError;
use crate::text::{
    chars_of, is_ascii_alnum, is_ascii_alnum_char, push_char, trim, trim_bounds, trimmed,
    is_white_space, lemma_trimmed_no_edge_space, eq_ignore_ascii_case, ascii_lower,
    ascii_lower_code, same_text, to_owned_string,
};

verus! {

broadcast use vstd::string::group_string_axioms;

#[verifier::external_type_specification]
#[verifier::external_body]
pub struct ExUuid(uuid::Uuid);

/// `Uuid::clone`: `Uuid` derives `Clone` and `Copy`, so a clone is the same value.
pub assume_specification[ <uuid::Uuid as Clone>::clone ](u: &uuid::Uuid) -> (r: uuid::Uuid)
    ensures
        r == *u,
;

// ---------------------------------------------------------------------------
// Player slugs
// ---------------------------------------------------------------------------

/// The character that stands for `c` in a slug.
pub open spec fn slug_char(c: char) -> char {
    if is_ascii_alnum(c) || c == '_' || c == '.' || c == '-' {
        c
    } else {
        '_'
    }
}

/// Characters that may appear in a slug.
pub open spec fn is_slug_char(c: char) -> bool {
    is_ascii_alnum(c) || c == '_' || c == '.' || c == '-'
}

/// The slug used when a name has no characters left.
pub open spec fn default_slug() -> Seq<char> {
    seq!['p', 'l', 'a', 'y', 'e', 'r']
}

/// The slug of a player name: trimmed, each character outside
/// `[A-Za-z0-9_.-]` replaced by `_`, and `player` when nothing is left.
pub open spec fn spec_slug(name: Seq<char>) -> Seq<char> {
    let cleaned = trimmed(name).map_values(|c: char| slug_char(c));
    if cleaned.len() == 0 {
        default_slug()
    } else {
        cleaned
    }
}

/// The file-name-safe slug of a player name.
pub fn slug(name: &str) -> (s: String)
    ensures
        s@ == spec_slug(name@),
{
    let cs = chars_of(name);
    let (start, end) = trim_bounds(&cs);
    if start == end {
        let p = "player".to_string();
        proof {
            reveal_strlit("player");
        }
        return p;
    }
    let mut out = String::new();
    let mut k: usize = start;
    while k < end
        invariant
            start <= k <= end <= cs@.len(),
            trimmed(name@) == cs@.subrange(start as int, end as int),
            cs@ == name@,
            out@ == cs@.subrange(start as int, k as int).map_values(|c: char| slug_char(c)),
        decreases end - k,
    {
        let c = cs[k];
        let mapped = if is_ascii_alnum_char(c) || c == '_' || c == '.' || c == '-' {
            c
        } else {
            '_'
        };
        push_char(&mut out, mapped);
        k = k + 1;
        proof {
            assert(out@ =~= cs@.subrange(start as int, k as int).map_values(|c: char| slug_char(c)));
        }
    }
    out
}

/// A slug keeps every character of the trimmed name that is an ASCII letter or
/// digit or one of `_ . -`, and puts `_` for every other one; a blank name gets
/// `player`.
pub proof fn lemma_slug_keeps_safe_characters(name: Seq<char>)
    ensures
        trimmed(name).len() == 0 ==> spec_slug(name) == seq!['p', 'l', 'a', 'y', 'e', 'r'],
        trimmed(name).len() > 0 ==> spec_slug(name).len() == trimmed(name).len(),
        trimmed(name).len() > 0 ==> forall|i: int|
            0 <= i < trimmed(name).len() ==> {
                let c = #[trigger] trimmed(name)[i];
                let u = c as u32;
                if (0x30 <= u <= 0x39) || (0x41 <= u <= 0x5a) || (0x61 <= u <= 0x7a) || c == '_'
                    || c == '.' || c == '-' {
                    spec_slug(name)[i] == c
                } else {
                    spec_slug(name)[i] == '_'
                }
            },
{
}

/// A slug is never empty and holds only `[A-Za-z0-9_.-]`.
pub proof fn lemma_slug_charset(name: Seq<char>)
    ensures
        spec_slug(name).len() > 0,
        forall|i: int| 0 <= i < spec_slug(name).len() ==> is_slug_char(#[trigger] spec_slug(name)[i]),
{
    let s = spec_slug(name);
    assert forall|i: int| 0 <= i < s.len() implies is_slug_char(#[trigger] s[i]) by {
        if trimmed(name).map_values(|c: char| slug_char(c)).len() == 0 {
            assert(default_slug()[i] == s[i]);
            assert(is_ascii_alnum(default_slug()[i])) by {
                assert(default_slug() =~= seq!['p', 'l', 'a', 'y', 'e', 'r']);
            }
        }
    }
}

/// Slugging a slug gives it back.
pub proof fn lemma_slug_idempotent(name: Seq<char>)
    ensures
        spec_slug(spec_slug(name)) == spec_slug(name),
{
    let s = spec_slug(name);
    lemma_slug_charset(name);
    assert(!is_white_space(s[0]));
    assert(!is_white_space(s.last()));
    lemma_trimmed_no_edge_space(s);
    let m = trimmed(s).map_values(|c: char| slug_char(c));
    assert(m =~= s);
}


// ---------------------------------------------------------------------------
// Tokens and their hashes
// ---------------------------------------------------------------------------

/// The lower-case hexadecimal digit of `n` (0..16).
pub open spec fn hex_digit(n: int) -> char {
    if n < 10 {
        (48 + n) as char
    } else {
        (87 + n) as char
    }
}

/// Lower-case hexadecimal text of `bytes`, two digits per byte, high nibble first.
pub open spec fn hex_lower(bytes: Seq<u8>) -> Seq<char>
    decreases bytes.len(),
{
    if bytes.len() == 0 {
        Seq::empty()
    } else {
        seq![hex_digit(bytes[0] as int / 16), hex_digit(bytes[0] as int % 16)] + hex_lower(bytes.drop_first())
    }
}

/// Whether `c` is one of `0-9a-f`.
pub open spec fn is_lower_hex_char(c: char) -> bool {
    ('0' as u32 <= c as u32 <= '9' as u32) || ('a' as u32 <= c as u32 <= 'f' as u32)
}

/// 64 lower-case hex digits: the shape of tokens and of their hashes.
pub open spec fn is_hex_token(s: Seq<char>) -> bool {
    s.len() == 64 && forall|i: int| 0 <= i < 64 ==> is_lower_hex_char(#[trigger] s[i])
}

/// The SHA-256 digest of `bytes`.
pub uninterp spec fn sha256(bytes: Seq<u8>) -> Seq<u8>;

/// `hex::encode`: its documented result is the lower-case hexadecimal text of
/// the bytes, two digits per byte, high nibble first.
#[verifier::external_body]
fn hex_encode(bytes: &[u8]) -> (s: String)
    ensures
        s@ == hex_lower(bytes@),
{
    hex::encode(bytes)
}

/// `sha2::Sha256::digest`: the result is the SHA-256 digest of the input, 32 bytes long.
#[verifier::external_body]
fn sha256_digest(bytes: &[u8]) -> (d: Vec<u8>)
    ensures
        d@ == sha256(bytes@),
        d@.len() == 32,
{
    <sha2::Sha256 as sha2::Digest>::digest(bytes).to_vec()
}

/// `rand::thread_rng().fill_bytes`: 32 bytes from the thread-local generator.
/// Nothing is stated of their values.
#[verifier::external_body]
fn random_bytes() -> (b: [u8; 32])
{
    let mut bytes = [0u8; 32];
    rand::RngCore::fill_bytes(&mut rand::thread_rng(), &mut bytes);
    bytes
}

/// What `hash_token` stores for a presented token: hex of the SHA-256 of the
/// UTF-8 bytes of the trimmed token.
pub open spec fn spec_hash_token(token: Seq<char>) -> Seq<char> {
    hex_lower(sha256(vstd::utf8::encode_utf8(trimmed(token))))
}

/// A fresh bearer token: 32 random bytes in lower-case hex.
pub fn generate_token() -> (t: String)
    ensures
        exists|b: Seq<u8>| b.len() == 32 && t@ == hex_lower(b),
        is_hex_token(t@),
{
    let bytes = random_bytes();
    let t = hex_encode(&bytes);
    assert(bytes@.len() == 32);
    proof {
        lemma_token_shape(bytes@);
    }
    t
}

/// The lower-case hex text of a digest.
pub fn digest_hex(digest: &[u8]) -> (h: String)
    ensures
        h@ == hex_lower(digest@),
{
    hex_encode(digest)
}

/// The stored form of a token: hex SHA-256 of the trimmed token.
pub fn hash_token(token: &str) -> (h: String)
    ensures
        h@ == spec_hash_token(token@),
        is_hex_token(h@),
{
    let t = trim(token);
    let d = sha256_digest(t.as_bytes());
    proof {
        lemma_token_shape(d@);
    }
    digest_hex(d.as_slice())
}

/// Hex text has two digits per byte, each one of `0-9a-f`.
pub proof fn lemma_hex_lower_shape(bytes: Seq<u8>)
    ensures
        hex_lower(bytes).len() == 2 * bytes.len(),
        forall|i: int| 0 <= i < hex_lower(bytes).len() ==> is_lower_hex_char(#[trigger] hex_lower(bytes)[i]),
    decreases bytes.len(),
{
    if bytes.len() > 0 {
        lemma_hex_lower_shape(bytes.drop_first());
        let h = hex_lower(bytes);
        let rest = hex_lower(bytes.drop_first());
        let hi = bytes[0] as int / 16;
        let lo = bytes[0] as int % 16;
        assert forall|i: int| 0 <= i < h.len() implies is_lower_hex_char(#[trigger] h[i]) by {
            if i >= 2 {
                assert(h[i] == rest[i - 2]);
            } else if i == 0 {
                assert(h[i] == hex_digit(hi as int));
            } else {
                assert(h[i] == hex_digit(lo as int));
            }
        }
    }
}

/// The hex text of 32 bytes is 64 lower-case hex digits.
pub proof fn lemma_token_shape(b: Seq<u8>)
    requires
        b.len() == 32,
    ensures
        is_hex_token(hex_lower(b)),
{
    lemma_hex_lower_shape(b);
}

/// Whitespace around a presented token does not change its hash.
pub proof fn lemma_hash_token_ignores_padding(token: Seq<char>)
    ensures
        spec_hash_token(trimmed(token)) == spec_hash_token(token),
{
    crate::text::lemma_trimmed_idempotent(token);
}


// ---------------------------------------------------------------------------
// Bearer credentials
// ---------------------------------------------------------------------------

/// `i` is the position of the first space of `v`.
pub open spec fn first_space_at(v: Seq<char>, i: int) -> bool {
    0 <= i < v.len() && v[i] == ' ' && forall|k: int| 0 <= k < i ==> v[k] != ' '
}

/// The scheme name of bearer credentials.
pub open spec fn bearer_scheme() -> Seq<char> {
    seq!['b', 'e', 'a', 'r', 'e', 'r']
}

/// The token of an `Authorization` value: the value splits at its first space
/// into a scheme, which must be `bearer` up to ASCII case, and the rest, which is
/// trimmed.
pub open spec fn spec_bearer(v: Seq<char>) -> Option<Seq<char>> {
    if exists|i: int| first_space_at(v, i) {
        let i = choose|i: int| first_space_at(v, i);
        if eq_ignore_ascii_case(v.take(i), bearer_scheme()) {
            Some(trimmed(v.skip(i + 1)))
        } else {
            None
        }
    } else {
        None
    }
}

/// The bearer token of an `Authorization` header value, if it names one.
pub fn bearer(value: &str) -> (t: Option<String>)
    ensures
        match spec_bearer(value@) {
            Some(tok) => t is Some && t->0@ == tok,
            None => t is None,
        },
{
    let cs = chars_of(value);
    let mut i: usize = 0;
    while i < cs.len() && cs[i] != ' '
        invariant
            cs@ == value@,
            i <= cs@.len(),
            forall|k: int| 0 <= k < i ==> cs@[k] != ' ',
        decreases cs@.len() - i,
    {
        i = i + 1;
    }
    if i == cs.len() {
        assert(!exists|j: int| first_space_at(value@, j)) by {
            if exists|j: int| first_space_at(value@, j) {
                let j = choose|j: int| first_space_at(value@, j);
                assert(cs@[j] != ' ');
            }
        }
        return None;
    }
    assert(first_space_at(value@, i as int));
    assert forall|j: int| first_space_at(value@, j) implies j == i by {
        if j < i {
            assert(cs@[j] != ' ');
        } else if j > i {
            assert(value@[i as int] != ' ');
        }
    }
    let ghost scheme = value@.take(i as int);
    let expected: [u32; 6] = [98, 101, 97, 114, 101, 114];
    if i != 6 {
        return None;
    }
    let mut k: usize = 0;
    while k < 6
        invariant
            i == 6,
            cs@ == value@,
            scheme == value@.take(6),
            i < cs@.len(),
            k <= 6,
            expected@ == seq![98u32, 101u32, 97u32, 114u32, 101u32, 114u32],
            forall|m: int| 0 <= m < k ==> ascii_lower(#[trigger] cs@[m]) == ascii_lower(
                bearer_scheme()[m],
            ),
        decreases 6 - k,
    {
        let lc = ascii_lower_code(cs[k]);
        proof {
            assert(ascii_lower(bearer_scheme()[k as int]) == expected@[k as int]) by {
                assert(bearer_scheme() =~= seq!['b', 'e', 'a', 'r', 'e', 'r']);
            }
        }
        if lc != expected[k] {
            assert(scheme[k as int] == cs@[k as int]);
            assert(!eq_ignore_ascii_case(scheme, bearer_scheme()));
            return None;
        }
        k = k + 1;
    }
    assert(eq_ignore_ascii_case(scheme, bearer_scheme()));
    let rest = value.substring_char(i + 1, cs.len());
    assert(rest@ =~= value@.skip(i + 1));
    let tok = trim(rest);
    Some(to_owned_string(tok))
}


/// The `Authorization` value that presents `token` as bearer credentials.
pub open spec fn bearer_header(token: Seq<char>) -> Seq<char> {
    seq!['B', 'e', 'a', 'r', 'e', 'r', ' '] + token
}

/// The token read from `Bearer <t>` is `t` trimmed, character for character,
/// whatever `t` holds; so a token without surrounding white space is read back
/// exactly.
pub proof fn lemma_bearer_reads_token_back(t: Seq<char>)
    ensures
        spec_bearer(bearer_header(t)) == Some(trimmed(t)),
        (t.len() == 0 || (!is_white_space(t[0]) && !is_white_space(t.last())))
            ==> spec_bearer(bearer_header(t)) == Some(t),
{
    let v = bearer_header(t);
    assert(v[6] == ' ');
    assert(first_space_at(v, 6));
    assert forall|i: int| first_space_at(v, i) implies i == 6 by {
        if i > 6 {
            assert(v[6] != ' ');
        } else if i < 6 {
            assert(v[i] == seq!['B', 'e', 'a', 'r', 'e', 'r'][i]);
        }
    }
    assert(eq_ignore_ascii_case(v.take(6), bearer_scheme()));
    assert(v.skip(7) =~= t);
    if t.len() == 0 || (!is_white_space(t[0]) && !is_white_space(t.last())) {
        lemma_trimmed_no_edge_space(t);
    }
}

/// A minted token, presented as `Bearer <token>`, is read back unchanged, and so
/// hashes to exactly what was stored for it.
pub proof fn lemma_minted_token_authenticates(b: Seq<u8>)
    requires
        b.len() == 32,
    ensures
        spec_bearer(bearer_header(hex_lower(b))) == Some(hex_lower(b)),
        trimmed(hex_lower(b)) == hex_lower(b),
{
    let t = hex_lower(b);
    let v = bearer_header(t);
    lemma_token_shape(b);
    assert forall|k: int| 0 <= k < t.len() implies !is_white_space(#[trigger] t[k]) && t[k] != ' ' by {
        assert(is_lower_hex_char(t[k]));
    }
    assert(v[6] == ' ');
    assert(first_space_at(v, 6));
    assert forall|i: int| first_space_at(v, i) implies i == 6 by {
        if i > 6 {
            assert(v[6] != ' ');
        } else if i < 6 {
            assert(v[i] == seq!['B', 'e', 'a', 'r', 'e', 'r'][i]);
        }
    }
    assert(eq_ignore_ascii_case(v.take(6), bearer_scheme()));
    assert(v.skip(7) =~= t);
    assert(!is_white_space(t[0]));
    assert(!is_white_space(t.last()));
    lemma_trimmed_no_edge_space(t);
}

// ---------------------------------------------------------------------------
// Authenticated callers
// ---------------------------------------------------------------------------

/// The role name that grants admin rights.
pub open spec fn admin_role() -> Seq<char> {
    seq!['a', 'd', 'm', 'i', 'n']
}

/// The caller behind a valid, unrevoked token.
#[derive(Clone, Debug)]
pub struct AuthCtx {
    pub token_id: uuid::Uuid,
    pub crew_id: uuid::Uuid,
    pub player_name: String,
    pub role: String,
}

impl AuthCtx {
    /// Whether the caller holds the admin role.
    pub fn is_admin(&self) -> (b: bool)
        ensures
            b == (self.role@ == admin_role()),
    {
        let r = same_text(self.role.as_str(), "admin");
        proof {
            reveal_strlit("admin");
            assert("admin"@ =~= admin_role());
        }
        r
    }
}

/// A caller that holds the admin role.
pub struct AdminCtx(pub AuthCtx);

/// Admits admin callers only; others are `Forbidden`.
pub fn require_admin(ctx: AuthCtx) -> (r: Result<AdminCtx, AppError>)
    ensures
        ctx.role@ == admin_role() ==> r is Ok && r->Ok_0.0 == ctx,
        ctx.role@ != admin_role() ==> r == Err::<AdminCtx, AppError>(AppError::Forbidden),
{
    if ctx.is_admin() {
        Ok(AdminCtx(ctx))
    } else {
        Err(AppError::Forbidden)
    }
}

/// The stored hash to look a caller up by, from the `Authorization` header
/// value (if any): `Unauthorized` when there is no bearer token.
pub fn credential_hash(header: Option<&str>) -> (r: Result<String, AppError>)
    ensures
        match header {
            None => r == Err::<String, AppError>(AppError::Unauthorized),
            Some(v) => match spec_bearer(v@) {
                None => r == Err::<String, AppError>(AppError::Unauthorized),
                Some(tok) => r is Ok && r->Ok_0@ == spec_hash_token(tok) && is_hex_token(r->Ok_0@),
            },
        },
{
    match header {
        None => Err(AppError::Unauthorized),
        Some(v) => match bearer(v) {
            None => Err(AppError::Unauthorized),
            Some(tok) => {
                let h = hash_token(tok.as_str());
                proof {
                    crate::text::lemma_trimmed_idempotent(tok@);
                }
                Ok(h)
            },
        },
    }
}

/// The caller from the token row found by hash, if any: `Unauthorized` when
/// no unrevoked token matches.
pub fn caller_from_row(row: Option<(uuid::Uuid, uuid::Uuid, String, String)>) -> (r: Result<AuthCtx, AppError>)
    ensures
        match row {
            None => r == Err::<AuthCtx, AppError>(AppError::Unauthorized),
            Some(t) => r == Ok::<AuthCtx, AppError>(AuthCtx { token_id: t.0, crew_id: t.1, player_name: t.2, role: t.3 }),
        },
{
    match row {
        None => Err(AppError::Unauthorized),
        Some((token_id, crew_id, player_name, role)) => Ok(AuthCtx { token_id, crew_id, player_name, role }),
    }
}

/// What `whoami` reports of the caller.
pub struct WhoAmI {
    pub player: String,
    pub slug: String,
    pub crew_id: uuid::Uuid,
    pub role: String,
}

/// The caller's name, slug, crew and role.
pub fn whoami(ctx: &AuthCtx) -> (w: WhoAmI)
    ensures
        w.player@ == ctx.player_name@,
        w.slug@ == spec_slug(ctx.player_name@),
        w.crew_id == ctx.crew_id,
        w.role@ == ctx.role@,
{
    WhoAmI {
        player: ctx.player_name.clone(),
        slug: slug(ctx.player_name.as_str()),
        crew_id: ctx.crew_id,
        role: ctx.role.clone(),
    }
}

} // verus!
