//! Collaborative-filtering restaurant recommendations over a bipartite
//! user/business rating graph, with every step stated and proved.
//!
//! Ratings are integers in thousandths of a star, and similarities are
//! fixed-point integers in millionths, so that every result is exact and
//! the same on every run.

pub mod counts;
pub mod graph;
pub mod ident;
pub mod matrix;
pub mod ranking;
pub mod recommend;
pub mod similarity;

pub use counts::{top_nodes, top_restaurants, top_reviewers};
pub use graph::{bad_make_graph, good_make_graph, make_graph, Graph, GOOD_THRESHOLD};
pub use matrix::{create_adjacency_matrix, AdjacencyMatrix};
pub use ranking::top_indices;
pub use recommend::{restaurant_recommender, RecommendError, TOP_RECOMMENDATIONS};
pub use similarity::{calculate_user_similarity, cosine_similarity, precompute_norms, SCALE};
