//! The node model: an entry of the frozen filesystem model is either a
//! synthetic directory derived from a classification label, or a file with a
//! rendered display name that points back at its source path.

use vstd::prelude::*;

use crate::attr::FileAttr;

verus! {

/// A file or directory of the virtual filesystem model.
pub enum SiftNode {
    SiftFile {
        /// The rendered display name.
        name: String,
        /// The source filename as it stands in the scanned directory.
        original_name: String,
        /// The absolute path where the real bytes live.
        abs_path: String,
        /// The derived directory label this file logically belongs to.
        sift_directory: String,
        inode: u64,
        offset: i64,
        attr: FileAttr,
    },
    SiftDirectory {
        /// The derived directory label ("/" for the root).
        name: String,
        inode: u64,
        offset: i64,
        attr: FileAttr,
    },
}

impl SiftNode {
    /// The node's identifier.
    pub open spec fn spec_inode(&self) -> u64 {
        match self {
            SiftNode::SiftFile { inode, .. } => *inode,
            SiftNode::SiftDirectory { inode, .. } => *inode,
        }
    }

    /// The node's listing position.
    pub open spec fn spec_offset(&self) -> i64 {
        match self {
            SiftNode::SiftFile { offset, .. } => *offset,
            SiftNode::SiftDirectory { offset, .. } => *offset,
        }
    }

    /// The node's attributes.
    pub open spec fn spec_attr(&self) -> FileAttr {
        match self {
            SiftNode::SiftFile { attr, .. } => *attr,
            SiftNode::SiftDirectory { attr, .. } => *attr,
        }
    }

    /// The node's display name.
    pub open spec fn spec_name(&self) -> Seq<char> {
        match self {
            SiftNode::SiftFile { name, .. } => name@,
            SiftNode::SiftDirectory { name, .. } => name@,
        }
    }

    /// Whether the node is a file.
    pub open spec fn is_file(&self) -> bool {
        self is SiftFile
    }

    /// The identifier of this node, whichever variant it is.
    pub fn get_inode(&self) -> (r: u64)
        ensures
            r == self.spec_inode(),
    {
        match self {
            SiftNode::SiftFile { inode, .. } | SiftNode::SiftDirectory { inode, .. } => *inode,
        }
    }

    /// The listing position of this node, whichever variant it is.
    pub fn get_offset(&self) -> (r: i64)
        ensures
            r == self.spec_offset(),
    {
        match self {
            SiftNode::SiftFile { offset, .. } | SiftNode::SiftDirectory { offset, .. } => *offset,
        }
    }

    /// The attributes of this node, whichever variant it is.
    pub fn get_attr(&self) -> (r: &FileAttr)
        ensures
            *r == self.spec_attr(),
    {
        match self {
            SiftNode::SiftFile { attr, .. } | SiftNode::SiftDirectory { attr, .. } => attr,
        }
    }

    /// The display name of this node, whichever variant it is.
    pub fn get_name(&self) -> (r: &str)
        ensures
            r@ == self.spec_name(),
    {
        match self {
            SiftNode::SiftFile { name, .. } | SiftNode::SiftDirectory { name, .. } => name.as_str(),
        }
    }
}

} // verus!
