//! Flow-network and connectivity primitives over raster grids: neighbour
//! addressing, in-degree estimation, dependency-ordered propagation, outlet
//! resolution for basin delineation and connected-region labelling.
pub mod addressing;
pub mod surface;
pub mod in_degree;
pub mod frontier;
pub mod outlet;
pub mod region;
