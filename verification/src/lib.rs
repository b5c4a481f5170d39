//! Classic algorithmic building blocks with verified contracts: a
//! disjoint-set structure (union-find with union by size and path
//! compression) and an indexed prefix-sum tree (Fenwick tree), together with
//! number-theory and shortest-path utilities.

pub mod fenwick;
pub mod floyd_warshall;
pub mod gcd;
pub mod sieve;
pub mod union_find;
