//! Terminal image support: which graphics protocol a terminal speaks, how
//! large an image may be drawn, and the Base64 text the protocols carry.
use vstd::prelude::*;
use vstd::string::StrSliceExecFns;
use vstd::string::StringExecFns;

verus! {

/// A way of drawing images in a terminal.
#[derive(Clone, Copy, Debug, PartialEq, Eq, Structural)]
pub enum ImageProtocol {
    Kitty,
    ITerm2,
    Sixel,
    HalfBlocks,
    Unsupported,
}

/// The environment variables protocol detection reads, as bytes; `None`
/// where a variable is unset.
pub struct TerminalEnv {
    pub term: Option<Vec<u8>>,
    pub kitty_window_id: bool,
    pub term_program: Option<Vec<u8>>,
    pub colorterm: Option<Vec<u8>>,
}

/// Draws images with the protocol its terminal speaks.
pub struct ImageDisplay {
    protocol: ImageProtocol,
}

/// Whether `needle` occurs in `hay`.
pub open spec fn occurs(hay: Seq<u8>, needle: Seq<u8>) -> bool {
    exists|i: int| 0 <= i <= hay.len() - needle.len() && #[trigger] hay.subrange(i, i + needle.len()) == needle
}

pub open spec fn opt_occurs(v: Option<Vec<u8>>, needle: Seq<u8>) -> bool {
    match v {
        Some(s) => occurs(s@, needle),
        None => false,
    }
}

pub open spec fn opt_is(v: Option<Vec<u8>>, word: Seq<u8>) -> bool {
    match v {
        Some(s) => s@ == word,
        None => false,
    }
}

pub open spec fn kitty_bytes() -> Seq<u8> {
    seq![107u8, 105u8, 116u8, 116u8, 121u8]
}

pub open spec fn foot_bytes() -> Seq<u8> {
    seq![102u8, 111u8, 111u8, 116u8]
}

pub open spec fn iterm_bytes() -> Seq<u8> {
    seq![105u8, 84u8, 101u8, 114u8, 109u8, 46u8, 97u8, 112u8, 112u8]
}

pub open spec fn wezterm_bytes() -> Seq<u8> {
    seq![87u8, 101u8, 122u8, 84u8, 101u8, 114u8, 109u8]
}

pub open spec fn ghostty_bytes() -> Seq<u8> {
    seq![103u8, 104u8, 111u8, 115u8, 116u8, 116u8, 121u8]
}

pub open spec fn truecolor_bytes() -> Seq<u8> {
    seq![116u8, 114u8, 117u8, 101u8, 99u8, 111u8, 108u8, 111u8, 114u8]
}

pub open spec fn bit24_bytes() -> Seq<u8> {
    seq![50u8, 52u8, 98u8, 105u8, 116u8]
}

/// The protocol a terminal speaks, judged from its environment: Kitty for a
/// `TERM` naming kitty or a Kitty window id, iTerm2 for iTerm.app or WezTerm,
/// Sixel for foot, Kitty for ghostty, half blocks for a true-colour
/// terminal, else none.
pub open spec fn protocol_of(env: TerminalEnv) -> ImageProtocol {
    if env.term is Some && (opt_occurs(env.term, kitty_bytes()) || env.kitty_window_id) {
        ImageProtocol::Kitty
    } else if env.term is Some && (opt_is(env.term_program, iterm_bytes()) || opt_is(env.term_program, wezterm_bytes())) {
        ImageProtocol::ITerm2
    } else if opt_occurs(env.term, foot_bytes()) {
        ImageProtocol::Sixel
    } else if opt_is(env.term_program, iterm_bytes()) || opt_is(env.term_program, wezterm_bytes()) {
        ImageProtocol::ITerm2
    } else if opt_is(env.term_program, ghostty_bytes()) {
        ImageProtocol::Kitty
    } else if opt_occurs(env.colorterm, truecolor_bytes()) || opt_occurs(env.colorterm, bit24_bytes()) {
        ImageProtocol::HalfBlocks
    } else {
        ImageProtocol::Unsupported
    }
}

/// Whether `needle` occurs in `hay`.
pub fn contains_bytes(hay: &[u8], needle: &[u8]) -> (r: bool)
    ensures
        r == occurs(hay@, needle@),
{
    if needle.len() > hay.len() {
        proof {
            assert forall|i: int| 0 <= i <= hay@.len() - needle@.len() implies #[trigger] hay@.subrange(i, i + needle@.len()) != needle@ by {}
        }
        return false;
    }
    let hlen = hay.len();
    let last = hlen - needle.len();
    let mut i: usize = 0;
    while i <= last
        invariant
            hlen == hay@.len(),
            needle@.len() <= hay@.len(),
            last == hay@.len() - needle@.len(),
            i <= last + 1,
            forall|k: int| 0 <= k < i ==> #[trigger] hay@.subrange(k, k + needle@.len()) != needle@,
        decreases last + 1 - i,
    {
        let mut j: usize = 0;
        let mut same = true;
        while j < needle.len()
            invariant
                hlen == hay@.len(),
                needle@.len() <= hay@.len(),
                i <= last,
                last == hay@.len() - needle@.len(),
                j <= needle@.len(),
                same == forall|m: int| 0 <= m < j ==> #[trigger] hay@[i + m] == needle@[m],
            decreases needle@.len() - j,
        {
            if hay[i + j] != needle[j] {
                same = false;
            }
            j = j + 1;
        }
        if same {
            assert forall|m: int| 0 <= m < needle@.len() implies hay@.subrange(i as int, i + needle@.len())[m] == needle@[m] by {
                assert(hay@[i + m] == needle@[m]);
            }
            assert(hay@.subrange(i as int, i + needle@.len()) =~= needle@);
            return true;
        }
        proof {
            let m = choose|m: int| 0 <= m < needle@.len() && #[trigger] hay@[i + m] != needle@[m];
            assert(hay@.subrange(i as int, i + needle@.len())[m] != needle@[m]);
        }
        if i == last {
            return false;
        }
        i = i + 1;
    }
    false
}

fn opt_contains(v: &Option<Vec<u8>>, needle: &[u8]) -> (r: bool)
    ensures
        r == opt_occurs(*v, needle@),
{
    match v {
        Some(s) => contains_bytes(s.as_slice(), needle),
        None => false,
    }
}

fn opt_equals(v: &Option<Vec<u8>>, word: &[u8]) -> (r: bool)
    ensures
        r == opt_is(*v, word@),
{
    match v {
        Some(s) => bytes_equal(s.as_slice(), word),
        None => false,
    }
}

/// Whether two byte strings are equal.
pub fn bytes_equal(a: &[u8], b: &[u8]) -> (r: bool)
    ensures
        r == (a@ == b@),
{
    if a.len() != b.len() {
        return false;
    }
    let mut i: usize = 0;
    while i < b.len()
        invariant
            a@.len() == b@.len(),
            i <= b@.len(),
            forall|k: int| 0 <= k < i ==> #[trigger] a@[k] == b@[k],
        decreases b@.len() - i,
    {
        if a[i] != b[i] {
            assert(a@[i as int] != b@[i as int]);
            return false;
        }
        i = i + 1;
    }
    assert(a@ =~= b@);
    true
}

impl ImageDisplay {
    /// Picks the protocol from the terminal's environment.
    pub fn detect(env: &TerminalEnv) -> (r: ImageDisplay)
        ensures
            r.protocol_view() == protocol_of(*env),
    {
        let kitty: [u8; 5] = [107, 105, 116, 116, 121];
        let foot: [u8; 4] = [102, 111, 111, 116];
        let iterm: [u8; 9] = [105, 84, 101, 114, 109, 46, 97, 112, 112];
        let wezterm: [u8; 7] = [87, 101, 122, 84, 101, 114, 109];
        let ghostty: [u8; 7] = [103, 104, 111, 115, 116, 116, 121];
        let truecolor: [u8; 9] = [116, 114, 117, 101, 99, 111, 108, 111, 114];
        let bit24: [u8; 5] = [50, 52, 98, 105, 116];
        proof {
            assert(kitty@ =~= kitty_bytes());
            assert(foot@ =~= foot_bytes());
            assert(iterm@ =~= iterm_bytes());
            assert(wezterm@ =~= wezterm_bytes());
            assert(ghostty@ =~= ghostty_bytes());
            assert(truecolor@ =~= truecolor_bytes());
            assert(bit24@ =~= bit24_bytes());
        }
        let is_iterm = opt_equals(&env.term_program, iterm.as_slice()) || opt_equals(&env.term_program, wezterm.as_slice());
        let protocol = if env.term.is_some() && (opt_contains(&env.term, kitty.as_slice()) || env.kitty_window_id) {
            ImageProtocol::Kitty
        } else if env.term.is_some() && is_iterm {
            ImageProtocol::ITerm2
        } else if opt_contains(&env.term, foot.as_slice()) {
            ImageProtocol::Sixel
        } else if is_iterm {
            ImageProtocol::ITerm2
        } else if opt_equals(&env.term_program, ghostty.as_slice()) {
            ImageProtocol::Kitty
        } else if opt_contains(&env.colorterm, truecolor.as_slice()) || opt_contains(&env.colorterm, bit24.as_slice()) {
            ImageProtocol::HalfBlocks
        } else {
            ImageProtocol::Unsupported
        };
        ImageDisplay { protocol }
    }

    /// A display that uses the given protocol.
    pub fn with_protocol(protocol: ImageProtocol) -> (r: ImageDisplay)
        ensures
            r.protocol_view() == protocol,
    {
        ImageDisplay { protocol }
    }

    pub closed spec fn protocol_view(&self) -> ImageProtocol {
        self.protocol
    }

    pub fn get_protocol(&self) -> (r: ImageProtocol)
        ensures
            r == self.protocol_view(),
    {
        self.protocol
    }
}

/// The size an image of `width` × `height` is drawn at: scaled down to fit
/// `max_width`, then its height clamped to `max_height`, then narrowed to the
/// terminal's width.
pub open spec fn fitted(width: u32, height: u32, max_width: Option<u32>, max_height: Option<u32>, term_width: u32) -> (u32, u32) {
    let (w1, h1) = match max_width {
        Some(mw) => if width > mw { (mw, ((height as int * mw as int) / width as int) as u32) } else { (width, height) },
        None => (width, height),
    };
    let (w2, h2) = match max_height {
        Some(mh) => if h1 > mh { (((w1 as int * mh as int) / mh as int) as u32, mh) } else { (w1, h1) },
        None => (w1, h1),
    };
    if w2 > term_width {
        (term_width, ((h2 as int * term_width as int) / w2 as int) as u32)
    } else {
        (w2, h2)
    }
}

/// Computes the size an image is drawn at.
pub fn fit_dimensions(width: u32, height: u32, max_width: Option<u32>, max_height: Option<u32>, term_width: u32) -> (r: (u32, u32))
    requires
        max_height != Some(0u32),
    ensures
        r == fitted(width, height, max_width, max_height, term_width),
{
    let mut new_width = width;
    let mut new_height = height;
    if let Some(max_w) = max_width {
        if width > max_w {
            new_width = max_w;
            assert(height as int * max_w as int <= 0xffff_ffff * 0xffff_ffff) by (nonlinear_arith)
                requires
                    height <= 0xffff_ffff,
                    max_w <= 0xffff_ffff,
            ;
            let h = (height as u64 * max_w as u64) / width as u64;
            assert(h <= height) by (nonlinear_arith)
                requires
                    h == (height as int * max_w as int) / width as int,
                    max_w < width,
            ;
            new_height = h as u32;
        }
    }
    if let Some(max_h) = max_height {
        if new_height > max_h {
            new_height = max_h;
            assert(new_width as int * max_h as int <= 0xffff_ffff * 0xffff_ffff) by (nonlinear_arith)
                requires
                    new_width <= 0xffff_ffff,
                    max_h <= 0xffff_ffff,
            ;
            let w = (new_width as u64 * max_h as u64) / new_height as u64;
            assert(w == new_width) by (nonlinear_arith)
                requires
                    w == (new_width as int * max_h as int) / max_h as int,
                    max_h > 0,
            ;
            new_width = w as u32;
        }
    }
    if new_width > term_width {
        assert(new_height as int * term_width as int <= 0xffff_ffff * 0xffff_ffff) by (nonlinear_arith)
            requires
                new_height <= 0xffff_ffff,
                term_width <= 0xffff_ffff,
        ;
        let h = (new_height as u64 * term_width as u64) / new_width as u64;
        assert(h <= new_height) by (nonlinear_arith)
            requires
                h == (new_height as int * term_width as int) / new_width as int,
                term_width < new_width,
        ;
        new_height = h as u32;
        new_width = term_width;
    }
    (new_width, new_height)
}

/// The Base64 alphabet.
pub open spec fn alphabet() -> Seq<char> {
    "ABCDEFGHIJKLMNOPQRSTUVWXYZabcdefghijklmnopqrstuvwxyz0123456789+/"@
}

/// Four output characters for one group of up to three bytes, `n` of them real.
pub open spec fn quad(b0: u8, b1: u8, b2: u8, n: int) -> Seq<char> {
    let b: u32 = ((b0 as u32) << 16u32) | ((b1 as u32) << 8u32) | (b2 as u32);
    seq![
        alphabet()[((b >> 18u32) & 0x3f) as int],
        alphabet()[((b >> 12u32) & 0x3f) as int],
        if n > 1 { alphabet()[((b >> 6u32) & 0x3f) as int] } else { '=' },
        if n > 2 { alphabet()[(b & 0x3f) as int] } else { '=' },
    ]
}

/// The encoding of the first `k` whole groups of three bytes.
pub open spec fn groups(s: Seq<u8>, k: int) -> Seq<char>
    decreases k,
{
    if k <= 0 {
        Seq::empty()
    } else {
        groups(s, k - 1) + quad(s[3 * (k - 1)], s[3 * (k - 1) + 1], s[3 * (k - 1) + 2], 3)
    }
}

/// Standard Base64 with `=` padding.
pub open spec fn base64(s: Seq<u8>) -> Seq<char> {
    let k = (s.len() / 3) as int;
    let rest = s.len() % 3;
    groups(s, k) + if rest == 0 {
        Seq::empty()
    } else if rest == 1 {
        quad(s[3 * k], 0, 0, 1)
    } else {
        quad(s[3 * k], s[3 * k + 1], 0, 2)
    }
}

fn alphabet_char(out: &mut String, idx: u32)
    requires
        idx < 64,
    ensures
        final(out)@ == old(out)@.push(alphabet()[idx as int]),
{
    let a: &str = "ABCDEFGHIJKLMNOPQRSTUVWXYZabcdefghijklmnopqrstuvwxyz0123456789+/";
    proof {
        reveal_strlit("ABCDEFGHIJKLMNOPQRSTUVWXYZabcdefghijklmnopqrstuvwxyz0123456789+/");
    }
    let piece = a.substring_char(idx as usize, idx as usize + 1);
    out.append(piece);
    assert(piece@ =~= seq![alphabet()[idx as int]]);
}

fn pad_char(out: &mut String)
    ensures
        final(out)@ == old(out)@.push('='),
{
    let eq: &str = "=";
    proof {
        reveal_strlit("=");
    }
    out.append(eq);
    assert(eq@ =~= seq!['=']);
}

fn push_quad(out: &mut String, b0: u8, b1: u8, b2: u8, n: usize)
    requires
        1 <= n <= 3,
    ensures
        final(out)@ == old(out)@ + quad(b0, b1, b2, n as int),
{
    let b: u32 = ((b0 as u32) << 16u32) | ((b1 as u32) << 8u32) | (b2 as u32);
    assert((b >> 18u32) & 0x3f < 64) by (bit_vector);
    assert((b >> 12u32) & 0x3f < 64) by (bit_vector);
    assert((b >> 6u32) & 0x3f < 64) by (bit_vector);
    assert(b & 0x3f < 64) by (bit_vector);
    alphabet_char(out, (b >> 18u32) & 0x3f);
    alphabet_char(out, (b >> 12u32) & 0x3f);
    if n > 1 {
        alphabet_char(out, (b >> 6u32) & 0x3f);
    } else {
        pad_char(out);
    }
    if n > 2 {
        alphabet_char(out, b & 0x3f);
    } else {
        pad_char(out);
    }
    assert(final(out)@ =~= old(out)@ + quad(b0, b1, b2, n as int));
}

/// Base64 of the bytes, padded with `=`.
pub fn encode(input: &[u8]) -> (r: String)
    ensures
        r@ == base64(input@),
{
    let mut result = String::new();
    let n = input.len();
    let k = n / 3;
    let mut g: usize = 0;
    while g < k
        invariant
            n == input@.len(),
            k == n / 3,
            g <= k,
            result@ == groups(input@, g as int),
        decreases k - g,
    {
        push_quad(&mut result, input[3 * g], input[3 * g + 1], input[3 * g + 2], 3);
        g = g + 1;
    }
    let rest = n - 3 * k;
    if rest == 1 {
        push_quad(&mut result, input[3 * k], 0, 0, 1);
    } else if rest == 2 {
        push_quad(&mut result, input[3 * k], input[3 * k + 1], 0, 2);
    }
    proof {
        if rest == 0 {
            assert(result@ =~= base64(input@));
        }
    }
    result
}

} // verus!
