use vstd::prelude::*;

verus! {

/// Cost given to a cell that no path has reached yet; it dominates any real path cost.
pub const UNREACHED: i32 = 6400;

/// Side of a grid cell in pixels.
pub const CELL_PIXELS: i32 = 20;

/// The role of a cell; exactly one holds at a time.
#[derive(PartialEq, Eq, Structural, Clone, Copy, Debug)]
pub enum NodeType {
    Start,
    End,
    Wall,
    Empty,
    Expanded,
    Explored,
    Path,
}

/// One grid cell. The parent is held as the grid coordinate `(x, y)` of the
/// predecessor, and `g` caches the cost that the parent gave when it was set.
#[derive(Clone, Copy, Debug)]
pub struct Node {
    pub x: i32,
    pub y: i32,
    pub node_type: NodeType,
    pub g: i32,
    pub h: i32,
    pub parent: Option<(usize, usize)>,
}

pub open spec fn abs(v: int) -> int {
    if v < 0 { -v } else { v }
}

impl Node {
    pub open spec fn role(&self) -> NodeType {
        self.node_type
    }

    /// Cost from the start: 0 for the start itself, the cached cost for a
    /// cell with a parent, and `UNREACHED` otherwise.
    pub open spec fn g_spec(&self) -> int {
        if self.role() == NodeType::Start {
            0
        } else if self.parent is Some {
            self.g as int
        } else {
            UNREACHED as int
        }
    }

    pub open spec fn manhattan(&self, other: &Node) -> int {
        abs(self.x - other.x) + abs(self.y - other.y)
    }

    /// A fresh empty cell: not reached, no parent.
    pub open spec fn new_spec(x: i32, y: i32) -> Node {
        Node { x, y, node_type: NodeType::Empty, g: UNREACHED, h: UNREACHED, parent: None }
    }

    pub fn new(x: i32, y: i32) -> (r: Node)
        ensures
            r == Node::new_spec(x, y),
    {
        Node { x, y, node_type: NodeType::Empty, g: UNREACHED, h: UNREACHED, parent: None }
    }

    pub fn get_type(&self) -> (r: &NodeType)
        ensures
            *r == self.role(),
    {
        &self.node_type
    }

    /// The cell's rectangle in pixels, as `(left, top, width, height)`.
    pub fn shape(&self) -> (r: (i32, i32, i32, i32))
        requires
            -100_000_000 <= self.x <= 100_000_000,
            -100_000_000 <= self.y <= 100_000_000,
        ensures
            r.0 == self.x * CELL_PIXELS,
            r.1 == self.y * CELL_PIXELS,
            r.2 == CELL_PIXELS,
            r.3 == CELL_PIXELS,
    {
        (self.x * CELL_PIXELS, self.y * CELL_PIXELS, CELL_PIXELS, CELL_PIXELS)
    }

    /// The display colour of the cell's role, as red, green and blue.
    pub fn color(&self) -> (r: (u8, u8, u8))
        ensures
            r == role_color(self.role()),
    {
        match self.node_type {
            NodeType::Start => (0, 0, 255),
            NodeType::End => (255, 255, 0),
            NodeType::Wall => (0, 0, 0),
            NodeType::Empty => (255, 255, 255),
            NodeType::Expanded => (0, 255, 0),
            NodeType::Explored => (255, 0, 0),
            NodeType::Path => (255, 115, 0),
        }
    }

    /// Manhattan distance between two cells.
    pub fn distance(&self, other: &Node) -> (r: i32)
        requires
            self.manhattan(other) <= i32::MAX,
        ensures
            r == self.manhattan(other),
    {
        let dx: i64 = (self.x as i64 - other.x as i64);
        let dy: i64 = (self.y as i64 - other.y as i64);
        let adx: i64 = if dx < 0 { -dx } else { dx };
        let ady: i64 = if dy < 0 { -dy } else { dy };
        (adx + ady) as i32
    }

    pub fn set_start(&mut self)
        ensures
            *final(self) == (Node { node_type: NodeType::Start, ..*old(self) }),
    {
        self.node_type = NodeType::Start;
    }

    pub fn set_end(&mut self)
        ensures
            *final(self) == (Node { node_type: NodeType::End, ..*old(self) }),
    {
        self.node_type = NodeType::End;
    }

    pub fn set_wall(&mut self)
        ensures
            *final(self) == (Node { node_type: NodeType::Wall, ..*old(self) }),
    {
        self.node_type = NodeType::Wall;
    }

    pub fn set_expanded(&mut self)
        ensures
            *final(self) == (Node { node_type: NodeType::Expanded, ..*old(self) }),
    {
        self.node_type = NodeType::Expanded;
    }

    pub fn set_explored(&mut self)
        ensures
            *final(self) == (Node { node_type: NodeType::Explored, ..*old(self) }),
    {
        self.node_type = NodeType::Explored;
    }

    pub fn set_path(&mut self)
        ensures
            *final(self) == (Node { node_type: NodeType::Path, ..*old(self) }),
    {
        self.node_type = NodeType::Path;
    }

    /// Makes `parent` this cell's predecessor; the cell's cost becomes one more
    /// than the parent's.
    pub fn set_parent(&mut self, parent: &Node)
        requires
            0 <= parent.x,
            0 <= parent.y,
            parent.g_spec() < i32::MAX,
        ensures
            *final(self) == (Node {
                parent: Some((parent.x as usize, parent.y as usize)),
                g: (parent.g_spec() + 1) as i32,
                ..*old(self)
            }),
    {
        let pg = parent.get_g();
        self.parent = Some((parent.x as usize, parent.y as usize));
        self.g = pg + 1;
    }

    pub fn get_f(&self) -> (r: i32)
        requires
            i32::MIN <= self.g_spec() + self.h <= i32::MAX,
        ensures
            r == self.g_spec() + self.h,
    {
        self.get_g() + self.h
    }

    pub fn get_g(&self) -> (r: i32)
        ensures
            r == self.g_spec(),
    {
        if self.node_type == NodeType::Start {
            return 0;
        }
        if self.parent.is_some() {
            self.g
        } else {
            UNREACHED
        }
    }
}

pub open spec fn role_color(t: NodeType) -> (u8, u8, u8) {
    match t {
        NodeType::Start => (0, 0, 255),
        NodeType::End => (255, 255, 0),
        NodeType::Wall => (0, 0, 0),
        NodeType::Empty => (255, 255, 255),
        NodeType::Expanded => (0, 255, 0),
        NodeType::Explored => (255, 0, 0),
        NodeType::Path => (255, 115, 0),
    }
}

} // verus!
