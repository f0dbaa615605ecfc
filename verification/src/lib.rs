//! Layered drawing of decision diagrams: building the layers with dummy nodes, ordering the
//! nodes within layers to reduce edge crossings, aligning groups that span several layers,
//! removing edges that cross groups, and the vertical alignment step of the coordinate
//! assignment; plus the plain settings of the drawing's configuration.
pub mod layer_orderer;
pub mod barycenter_ordering;
pub mod sugiyama_ordering;
pub mod layout_traits;
pub mod layer_orderings;
pub mod group_alignment;
pub mod config;
pub mod layered_layout;
pub mod brandes_kopf;
pub mod relate_elements;
pub mod crossing_symmetry;
