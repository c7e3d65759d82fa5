use crate::text::{
    chars_of, find_text, index_of_text, lemma_index_of_text_found, nonempty_pieces, split_text, string_of_range, strip_leading,
    strip_leading_bound, strip_trailing, strip_trailing_bound,
};
use crate::types::{ElementType, LiraElement};
use vstd::prelude::*;

verus! {

/// The reinforcement functions that drawings are made for.
#[derive(Debug, Clone, Copy, PartialEq, Eq, Structural)]
pub enum AsFunctions {
    As1,
    As2,
    As3,
    As4,
}

/// Where lines are rasterised.
#[derive(Debug, Clone, Copy, PartialEq, Eq, Structural)]
pub enum RenderMethod {
    Cpu,
    Gpu,
}

/// Least number of images for GPU rendering.
pub const GPU_THRESHOLD_IMAGES: usize = 4;

/// Least number of lines for GPU rendering.
pub const GPU_THRESHOLD_LINES: usize = 1000;

/// Least estimated buffer size (bytes) for GPU rendering.
pub const GPU_THRESHOLD_BUFFER_SIZE: u64 = 104857600;

/// Least number of pixels for GPU rendering.
pub const GPU_THRESHOLD_PIXELS: u64 = 2000000;

/// An image to render, described by its width, height and number of lines.
pub open spec fn image_pixels(img: (u32, u32, usize)) -> int {
    img.0 * img.1
}

/// Estimated buffer bytes of one image: RGBA pixels and eight 4-byte floats
/// per line.
pub open spec fn image_buffer_size(img: (u32, u32, usize)) -> int {
    img.0 * img.1 * 4 + img.2 * 32
}

pub open spec fn total_lines(imgs: Seq<(u32, u32, usize)>) -> int
    decreases imgs.len(),
{
    if imgs.len() == 0 {
        0
    } else {
        total_lines(imgs.drop_last()) + imgs.last().2
    }
}

pub open spec fn total_pixels(imgs: Seq<(u32, u32, usize)>) -> int
    decreases imgs.len(),
{
    if imgs.len() == 0 {
        0
    } else {
        total_pixels(imgs.drop_last()) + image_pixels(imgs.last())
    }
}

pub open spec fn total_buffer_size(imgs: Seq<(u32, u32, usize)>) -> int
    decreases imgs.len(),
{
    if imgs.len() == 0 {
        0
    } else {
        total_buffer_size(imgs.drop_last()) + image_buffer_size(imgs.last())
    }
}

/// The sizes are computed in the integer widths that rendering uses without
/// overflowing: per image in 32 bits, totals in `usize` and 64 bits.
pub open spec fn render_sizes_fit(imgs: Seq<(u32, u32, usize)>) -> bool {
    &&& forall|i: int|
        0 <= i < imgs.len() ==> #[trigger] image_pixels(imgs[i]) * 4 <= u32::MAX && imgs[i].2 * 32
            <= usize::MAX
    &&& forall|k: int|
        0 <= k <= imgs.len() ==> #[trigger] total_lines(imgs.take(k)) <= usize::MAX
            && total_pixels(imgs.take(k)) <= u64::MAX && total_buffer_size(imgs.take(k)) <= u64::MAX
}

proof fn lemma_totals_step(imgs: Seq<(u32, u32, usize)>, k: int)
    requires
        0 <= k < imgs.len(),
    ensures
        total_lines(imgs.take(k + 1)) == total_lines(imgs.take(k)) + imgs[k].2,
        total_pixels(imgs.take(k + 1)) == total_pixels(imgs.take(k)) + image_pixels(imgs[k]),
        total_buffer_size(imgs.take(k + 1)) == total_buffer_size(imgs.take(k)) + image_buffer_size(
            imgs[k],
        ),
{
    assert(imgs.take(k + 1).drop_last() =~= imgs.take(k));
}

/// Chooses GPU rendering only when every threshold is reached: number of
/// images, total lines, estimated buffer size and total pixels.
pub fn determine_render_method(images: &[(u32, u32, usize)]) -> (m: RenderMethod)
    requires
        render_sizes_fit(images@),
    ensures
        m == (if images@.len() >= GPU_THRESHOLD_IMAGES && total_lines(images@) >= GPU_THRESHOLD_LINES
            && total_buffer_size(images@) >= GPU_THRESHOLD_BUFFER_SIZE && total_pixels(images@)
            >= GPU_THRESHOLD_PIXELS {
            RenderMethod::Gpu
        } else {
            RenderMethod::Cpu
        }),
{
    let num_images = images.len();
    let mut lines: usize = 0;
    let mut pixels: u64 = 0;
    let mut buffer: u64 = 0;
    let mut i: usize = 0;
    while i < images.len()
        invariant
            i <= images.len(),
            render_sizes_fit(images@),
            lines == total_lines(images@.take(i as int)),
            pixels == total_pixels(images@.take(i as int)),
            buffer == total_buffer_size(images@.take(i as int)),
        decreases images.len() - i,
    {
        let (w, h, n) = images[i];
        proof {
            lemma_totals_step(images@, i as int);
            assert(image_pixels(images@[i as int]) * 4 <= u32::MAX);
            assert(images@[i as int].2 * 32 <= usize::MAX);
            assert(total_lines(images@.take(i + 1)) <= usize::MAX);
            assert(total_pixels(images@.take(i + 1)) <= u64::MAX);
            assert(total_buffer_size(images@.take(i + 1)) <= u64::MAX);
            assert(w * h <= w * h * 4) by (nonlinear_arith);
        }
        let px: u32 = w * h;
        lines = lines + n;
        pixels = pixels + px as u64;
        let img_size = (px * 4) as u64;
        let lines_size = (n * 8 * 4) as u64;
        buffer = buffer + img_size + lines_size;
        i += 1;
    }
    proof {
        assert(images@.take(i as int) =~= images@);
    }
    if num_images >= GPU_THRESHOLD_IMAGES && lines >= GPU_THRESHOLD_LINES && buffer >= GPU_THRESHOLD_BUFFER_SIZE
        && pixels >= GPU_THRESHOLD_PIXELS {
        RenderMethod::Gpu
    } else {
        RenderMethod::Cpu
    }
}

/// Whether a bar element is a side of the plate: some two consecutive nodes
/// of the plate (cyclically) are both nodes of the bar.
pub open spec fn borders(shell: Seq<u32>, bar: Seq<u32>) -> bool {
    exists|i: int|
        0 <= i < shell.len() && #[trigger] bar.contains(shell[i]) && bar.contains(
            shell[(i + 1) % (shell.len() as int)],
        )
}

/// Whether a plate lies next to a beam or column of `all_elements` along one
/// of its sides: a bar with at least two nodes that holds two consecutive
/// nodes of the plate.
pub fn is_adjacent_to_beam_by_nodes(shell_element: &LiraElement, all_elements: &[LiraElement]) -> (r:
    bool)
    ensures
        r == exists|k: int|
            0 <= k < all_elements@.len() && (#[trigger] all_elements@[k].element_type
                == ElementType::Beam || all_elements@[k].element_type == ElementType::Column)
                && all_elements@[k].nodes@.len() >= 2 && borders(
                shell_element.nodes@,
                all_elements@[k].nodes@,
            ),
{
    let mut k: usize = 0;
    while k < all_elements.len()
        invariant
            k <= all_elements.len(),
            forall|q: int|
                0 <= q < k ==> !((#[trigger] all_elements@[q].element_type == ElementType::Beam
                    || all_elements@[q].element_type == ElementType::Column)
                    && all_elements@[q].nodes@.len() >= 2 && borders(
                    shell_element.nodes@,
                    all_elements@[q].nodes@,
                )),
        decreases all_elements.len() - k,
    {
        let beam_element = &all_elements[k];
        if beam_element.is_beam() && beam_element.nodes.len() >= 2 {
            let beam_nodes = &beam_element.nodes;
            let shell_nodes = &shell_element.nodes;
            let mut i: usize = 0;
            while i < shell_nodes.len()
                invariant
                    k < all_elements.len(),
                    *beam_element == all_elements@[k as int],
                    beam_nodes == &beam_element.nodes,
                    shell_nodes == &shell_element.nodes,
                    beam_element.element_type == ElementType::Beam || beam_element.element_type
                        == ElementType::Column,
                    beam_nodes@.len() >= 2,
                    i <= shell_nodes.len(),
                    forall|q: int|
                        0 <= q < i ==> !(#[trigger] beam_nodes@.contains(shell_nodes@[q])
                            && beam_nodes@.contains(shell_nodes@[(q + 1) % (shell_nodes@.len() as int)])),
                decreases shell_nodes.len() - i,
            {
                let node1 = shell_nodes[i];
                let node2 = shell_nodes[(i + 1) % shell_nodes.len()];
                if crate::id_lists::contains_id(beam_nodes, node1) && crate::id_lists::contains_id(
                    beam_nodes,
                    node2,
                ) {
                    proof {
                        assert(node2 == shell_nodes@[(i + 1) % (shell_nodes@.len() as int)]);
                        assert(beam_nodes@.contains(shell_nodes@[i as int]));
                        assert(borders(shell_element.nodes@, beam_nodes@));
                        assert(all_elements@[k as int].element_type == ElementType::Beam
                            || all_elements@[k as int].element_type == ElementType::Column);
                        assert(all_elements@[k as int].nodes@.len() >= 2);
                    }
                    return true;
                }
                proof {
                    assert(node2 == shell_nodes@[(i + 1) % (shell_nodes@.len() as int)]);
                }
                i += 1;
            }
            proof {
                if borders(shell_element.nodes@, beam_nodes@) {
                    let q = choose|q: int|
                        0 <= q < shell_nodes@.len() && #[trigger] beam_nodes@.contains(shell_nodes@[q]) && beam_nodes@.contains(
                            shell_nodes@[(q + 1) % (shell_nodes@.len() as int)],
                        );
                    assert(false);
                }
            }
        }
        k += 1;
    }
    false
}

/// The colour of an element in a floor drawing: plates next to a bar along a
/// side sky blue, other plates yellow, bars brown, unknown elements grey.
pub open spec fn adjacency_color(element: LiraElement, all_elements: Seq<LiraElement>) -> (u8, u8, u8) {
    match element.element_type {
        ElementType::Shell => if exists|k: int|
            0 <= k < all_elements.len() && (#[trigger] all_elements[k].element_type == ElementType::Beam
                || all_elements[k].element_type == ElementType::Column) && all_elements[k].nodes@.len()
                >= 2 && borders(element.nodes@, all_elements[k].nodes@) {
            (135u8, 206u8, 250u8)
        } else {
            (255u8, 255u8, 0u8)
        },
        ElementType::Beam | ElementType::Column => (139u8, 69u8, 19u8),
        ElementType::Unknown => (128u8, 128u8, 128u8),
    }
}

/// In a floor drawing beams and columns share one colour, brown
/// (139, 69, 19); grey (128, 128, 128) marks exactly the elements of unknown
/// kind; a plate is yellow, or light blue where it borders a bar.
pub proof fn law_adjacency_colors(element: LiraElement, all_elements: Seq<LiraElement>)
    ensures
        (element.element_type == ElementType::Beam || element.element_type == ElementType::Column)
            <==> adjacency_color(element, all_elements) == (139u8, 69u8, 19u8),
        element.element_type == ElementType::Unknown <==> adjacency_color(element, all_elements)
            == (128u8, 128u8, 128u8),
        element.element_type == ElementType::Shell ==> (adjacency_color(element, all_elements)
            == (255u8, 255u8, 0u8) || adjacency_color(element, all_elements) == (135u8, 206u8, 250u8)),
        element.element_type == ElementType::Shell ==> (adjacency_color(element, all_elements) == (
        135u8,
        206u8,
        250u8,
        ) <==> exists|k: int|
            0 <= k < all_elements.len() && (#[trigger] all_elements[k].element_type
                == ElementType::Beam || all_elements[k].element_type == ElementType::Column)
                && all_elements[k].nodes@.len() >= 2 && borders(
                element.nodes@,
                all_elements[k].nodes@,
            )),
{
}

/// The colour (red, green, blue) of an element in a floor drawing, by its
/// kind and, for a plate, by whether a bar lies along one of its sides.
pub fn element_color_by_adjacency(element: &LiraElement, all_elements: &[LiraElement]) -> (c: (
    u8,
    u8,
    u8,
))
    ensures
        c == adjacency_color(*element, all_elements@),
{
    match element.element_type {
        ElementType::Shell => {
            if is_adjacent_to_beam_by_nodes(element, all_elements) {
                (135, 206, 250)
            } else {
                (255, 255, 0)
            }
        },
        ElementType::Beam | ElementType::Column => (139, 69, 19),
        ElementType::Unknown => (128, 128, 128),
    }
}

/// A description without its leading `[` and trailing `]`.
pub open spec fn unbracketed(p: Seq<char>) -> Seq<char> {
    strip_trailing(strip_leading(p, '['), ']')
}

/// Each piece without its brackets.
pub open spec fn unbracketed_all(ps: Seq<Seq<char>>) -> Seq<Seq<char>> {
    ps.map_values(|p: Seq<char>| unbracketed(p))
}

/// The reinforcement descriptions of a result scale such as
/// `[2.515см2:Ø8 мм s=200 мм][3.930см2:Ø8 мм s=200 мм + Ø6 мм s=200 мм]`: the
/// pieces between `][`, without leading `[` and trailing `]`, the empty ones
/// left out.
pub open spec fn diameter_descriptions(s: Seq<char>) -> Seq<Seq<char>> {
    nonempty_pieces(unbracketed_all(split_text(s, seq![']', '['])))
}

/// The reinforcement descriptions of a result scale, for the legend of a
/// drawing.
pub fn parse_diameter_descriptions(result_scale: &str) -> (r: Vec<String>)
    ensures
        r@.map_values(|d: String| d@) == diameter_descriptions(result_scale@),
{
    let chars = chars_of(result_scale);
    let n = chars.len();
    let sep = [']', '['];
    let ghost s = chars@;
    let ghost sp = seq![']', '['];
    proof {
        assert(sep@ =~= sp);
    }
    let mut out: Vec<String> = Vec::new();
    let ghost mut done: Seq<Seq<char>> = Seq::empty();
    let mut pos: usize = 0;
    proof {
        assert(s.skip(0) =~= s);
        assert(done + split_text(s.skip(0), sp) =~= split_text(s, sp));
        assert(out@.map_values(|d: String| d@) =~= nonempty_pieces(unbracketed_all(done)));
    }
    loop
        invariant
            pos <= n,
            n == chars@.len(),
            s == chars@,
            s == result_scale@,
            sep@ == sp,
            sp == seq![']', '['],
            done + split_text(s.skip(pos as int), sp) == split_text(s, sp),
            out@.map_values(|d: String| d@) == nonempty_pieces(unbracketed_all(done)),
        decreases n - pos,
    {
        let i = find_text(chars.as_slice(), pos, n, &sep);
        let ghost rest = s.skip(pos as int);
        proof {
            assert(chars@.subrange(pos as int, n as int) =~= rest);
        }
        let a = strip_leading_bound(chars.as_slice(), pos, i, '[');
        let b = strip_trailing_bound(chars.as_slice(), a, i, ']');
        let ghost piece = s.subrange(pos as int, i as int);
        proof {
            assert(unbracketed(piece) == s.subrange(a as int, b as int));
        }
        let ghost old_out = out@;
        if a < b {
            out.push(string_of_range(chars.as_slice(), a, b));
        }
        let ghost old_done = done;
        proof {
            done = done.push(piece);
            let mapped = unbracketed_all(done);
            assert(mapped.drop_last() =~= unbracketed_all(old_done));
            assert(mapped.last() == s.subrange(a as int, b as int));
            assert(out@.map_values(|d: String| d@) =~= nonempty_pieces(mapped));
        }
        if i == n {
            proof {
                assert(index_of_text(rest, sp) >= rest.len());
                assert(split_text(rest, sp) == seq![rest]);
                assert(piece =~= rest);
                assert(done =~= old_done + split_text(rest, sp));
                assert(done =~= split_text(s, sp));
                assert(sp == seq![']', '[']);
                assert(result_scale@ == s);
                assert(diameter_descriptions(result_scale@) == nonempty_pieces(unbracketed_all(split_text(s, sp))));
            }
            return out;
        }
        proof {
            let k = (i - pos) as int;
            lemma_index_of_text_found(rest, sp);
            assert(rest.take(k) =~= piece);
            assert(rest.skip(k + 2) =~= s.skip(i + 2));
            assert(split_text(rest, sp) == seq![rest.take(k)] + split_text(rest.skip(k + 2), sp));
            assert(done + split_text(s.skip(i + 2), sp) =~= old_done + split_text(rest, sp));
        }
        pos = i + 2;
    }
}

} // verus!
