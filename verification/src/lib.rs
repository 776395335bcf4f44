pub mod codec;
pub mod commit;
pub mod costs;
pub mod element;
pub mod entries;
pub mod grove;
pub mod hash;
pub mod link;
pub mod merk;
pub mod node;
pub mod ops;
pub mod order;
pub mod prefix;
pub mod storage;
pub mod tree;
pub mod varint;
