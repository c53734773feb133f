[package]
name = "p3_recursion"
version = "0.1.0"
edition = "2021"
publish = false

[dependencies]
hashbrown = "=0.17.1"
p3-air = "=0.7.0"
p3-baby-bear = "=0.7.0"
p3-batch-stark = "=0.7.0"
p3-challenger = "=0.7.0"
p3-commit = "=0.7.0"
p3-dft = "=0.7.0"
p3-field = "=0.7.0"
p3-fri = "=0.7.0"
p3-goldilocks = "=0.7.0"
p3-koala-bear = "=0.7.0"
p3-lookup = "=0.7.0"
p3-matrix = "=0.7.0"
p3-merkle-tree = "=0.7.0"
p3-monty-31 = "=0.7.0"
p3-multilinear-util = "=0.7.0"
p3-poseidon1 = "=0.7.0"
p3-poseidon1-air = "=0.7.0"
p3-sumcheck = "=0.7.0"
p3-symmetric = "=0.7.0"
p3-uni-stark = "=0.7.0"
p3-util = "=0.7.0"
p3-whir = "=0.7.0"
rand = "=0.10.3"
thiserror = "=2.0.21"
