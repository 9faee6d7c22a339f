//! Diagnostic drawing of the index's leaves as an SVG document.
use vstd::prelude::*;
use crate::quadtree::Quadtree;

verus! {

#[verifier::external_type_specification]
#[verifier::external_body]
pub struct ExSvgDocument(svg::node::element::SVG);

/// The rectangle elements of a document, as `(x, y, width, height)`, in
/// the order they were added.
pub uninterp spec fn doc_rects(d: svg::Document) -> Seq<(int, int, int, int)>;

/// Relies on svg's `Document::new` and `set`: a new document with no child
/// elements, whose `viewBox` attribute holds the four numbers.
#[verifier::external_body]
fn svg_with_view_box(x: i32, y: i32, width: i64, height: i64) -> (r: svg::Document)
    ensures
        doc_rects(r) == Seq::<(int, int, int, int)>::empty(),
{
    svg::Document::new().set("viewBox", (x, y, width, height))
}

/// Relies on svg's `Rectangle::new`, `set` and `add` (which appends to the
/// document's children): `doc` with one more rectangle element, placed at
/// `(x, y)` with the given size and the given fill and stroke.
#[verifier::external_body]
fn svg_add_rectangle(doc: svg::Document, x: i32, y: i32, width: i64, height: i64, fill: &str, stroke: &str) -> (r: svg::Document)
    ensures
        doc_rects(r) == doc_rects(doc).push((x as int, y as int, width as int, height as int)),
{
    let rect = svg::node::element::Rectangle::new()
        .set("x", x)
        .set("y", y)
        .set("width", width)
        .set("height", height)
        .set("fill", fill)
        .set("stroke", stroke);
    doc.add(rect)
}

impl<A> Quadtree<A> {
    /// The rectangles of all leaves, in increasing order of id, drawn as
    /// unfilled black outlines over a view of the world.
    pub fn render_as_svg(&self) -> (r: svg::Document)
        requires
            self.wf(),
        ensures
            doc_rects(r) == self.leaf_rects_upto(self.table_len()),
    {
        let world = self.bounds();
        let mut doc = svg_with_view_box(world.bl.x, world.bl.y, world.get_width(), world.get_height());
        let n = self.node_table_len();
        let mut id: usize = 0;
        proof {
            self.lemma_links();
        }
        while id < n
            invariant
                self.wf(),
                n == self.table_len(),
                id <= n,
                doc_rects(doc) == self.leaf_rects_upto(id as int),
                forall|m: int| #[trigger] self.is_leaf(m) ==> self.live(m),
            decreases n - id,
        {
            if self.get_leaf_agents(id).is_some() {
                let b = self.get_node_bounds(id).unwrap();
                doc = svg_add_rectangle(doc, b.bl.x, b.bl.y, b.get_width(), b.get_height(), "none", "black");
            }
            id = id + 1;
        }
        doc
    }
}

} // verus!
