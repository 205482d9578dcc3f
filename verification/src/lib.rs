//! Heuristic search for single-machine schedules that minimise total
//! earliness plus tardiness.
//!
//! A problem instance is a list of tasks, each with a processing time and a
//! due date. A candidate schedule is a permutation of the task ids; its cost
//! is the sum, over all tasks, of the distance between the completion time
//! and the due date when the tasks run back to back from time zero.
//!
//! Two engines search for cheap schedules: a genetic algorithm ([`ag`]) and a
//! GRASP with variable neighbourhood descent ([`grasp`]). Both return a
//! schedule with its true cost; neither promises the cheapest one.
//!
//! Rates and probabilities are exact ratios ([`fracao`]), and the roulette
//! wheel of the genetic algorithm works on integers ([`roleta`]), so that
//! every decision of the engines is a statement about integers.

pub mod ag;
pub mod crossover;
pub mod custo;
pub mod fracao;
pub mod grasp;
pub mod instancia;
pub mod leitura;
pub mod ordenacao;
pub mod parada;
pub mod permutacao;
pub mod relogio;
pub mod roleta;
pub mod sorteio;
