//! The picture of the window: a white disc on blue.
use vstd::prelude::*;

verus! {

pub const ICON_SIZE: usize = 32;

/// The pixel lies within the disc, whose radius is three tenths of the side. Twice
/// the distances from the middle are whole numbers, and no pixel has a square sum
/// between 362 and 370, where the rim lies.
pub open spec fn on_disc(x: int, y: int) -> bool {
    let dx = 2 * x - 31;
    let dy = 2 * y - 31;
    100 * (dx * dx + dy * dy) <= 36_864
}

/// The four bytes of a pixel: red, green, blue, and no transparency.
pub open spec fn pixel(x: int, y: int) -> Seq<u8> {
    if on_disc(x, y) {
        seq![255u8, 255u8, 255u8, 255u8]
    } else {
        seq![0u8, 120u8, 212u8, 255u8]
    }
}

/// The bytes of the first `n` pixels, row by row.
pub open spec fn pixels(n: int) -> Seq<u8>
    decreases n,
{
    if n <= 0 {
        Seq::empty()
    } else {
        pixels(n - 1) + pixel((n - 1) % 32, (n - 1) / 32)
    }
}

/// Draws the picture.
pub fn app_icon() -> (rgba: Vec<u8>)
    ensures
        rgba@ == pixels(1024),
{
    let mut rgba: Vec<u8> = Vec::new();
    let mut n: usize = 0;
    assert(rgba@ =~= pixels(0));
    while n < 1024
        invariant
            n <= 1024,
            rgba@ == pixels(n as int),
        decreases 1024 - n,
    {
        let dx: i32 = 2 * (n % ICON_SIZE) as i32 - 31;
        let dy: i32 = 2 * (n / ICON_SIZE) as i32 - 31;
        let ghost before = rgba@;
        assert(0 <= dx * dx <= 961 && 0 <= dy * dy <= 961) by (nonlinear_arith)
            requires
                -31 <= dx <= 31,
                -31 <= dy <= 31,
        ;
        if 100 * (dx * dx + dy * dy) <= 36_864 {
            rgba.push(255);
            rgba.push(255);
            rgba.push(255);
        } else {
            rgba.push(0);
            rgba.push(120);
            rgba.push(212);
        }
        rgba.push(255);
        n += 1;
        assert(rgba@ =~= before + pixel((n - 1) % 32, (n - 1) / 32));
    }
    rgba
}

/// The icon, pixel by pixel: four bytes for each of thirty-two times thirty-two pixels, row
/// by row; white within a distance of 9.6 from the centre, blue outside, and opaque.
pub proof fn law_icon_is_a_disc(x: int, y: int)
    requires
        0 <= x < 32,
        0 <= y < 32,
    ensures
        pixels(1024).len() == 4096,
        ({
            let at = 4 * (32 * y + x);
            let (dx, dy) = (2 * x - 31, 2 * y - 31);
            let white = 25 * (dx * dx + dy * dy) <= 96 * 96;
            &&& white ==> pixels(1024).subrange(at, at + 4) == seq![255u8, 255u8, 255u8, 255u8]
            &&& !white ==> pixels(1024).subrange(at, at + 4) == seq![0u8, 120u8, 212u8, 255u8]
        }),
{
    lemma_pixel_at(32 * y + x, 1024);
    assert((32 * y + x) % 32 == x);
    assert((32 * y + x) / 32 == y);
}

proof fn lemma_pixel_at(k: int, n: int)
    requires
        0 <= k < n,
    ensures
        pixels(n).len() == 4 * n,
        pixels(n).subrange(4 * k, 4 * k + 4) == pixel(k % 32, k / 32),
    decreases n,
{
    lemma_pixel_count(n - 1);
    lemma_pixel_count(n);
    let before = pixels(n - 1);
    lemma_parts(before, pixel((n - 1) % 32, (n - 1) / 32), 4 * k);
    if k < n - 1 {
        lemma_pixel_at(k, n - 1);
    }
}

proof fn lemma_parts(a: Seq<u8>, b: Seq<u8>, at: int)
    requires
        b.len() == 4,
        0 <= at,
    ensures
        at + 4 <= a.len() ==> (a + b).subrange(at, at + 4) == a.subrange(at, at + 4),
        at == a.len() ==> (a + b).subrange(at, at + 4) == b,
{
    if at + 4 <= a.len() {
        assert((a + b).subrange(at, at + 4) =~= a.subrange(at, at + 4));
    }
    if at == a.len() {
        assert((a + b).subrange(at, at + 4) =~= b);
    }
}

proof fn lemma_pixel_count(n: int)
    requires
        0 <= n,
    ensures
        pixels(n).len() == 4 * n,
    decreases n,
{
    if n > 0 {
        lemma_pixel_count(n - 1);
    }
}

} // verus!
