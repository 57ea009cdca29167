use jobshop::cfg::Config;
use jobshop::cfg::Operation;
use jobshop::parallel::breed;
use jobshop::parallel::Couple;
use jobshop::population::Population;
use jobshop::random::gen_rngs;
use jobshop::schedule::Schedule;
use rand::distributions::Bernoulli;
use rand::distributions::Distribution;
use rand::distributions::WeightedIndex;
use rand::RngCore;
use rand::SeedableRng;
use rand_xoshiro::Xoshiro256PlusPlus;

fn op(machine: usize, duration: u64) -> Operation {
    Operation { duration, machine }
}

fn config(jobs: Vec<Vec<Operation>>, population: usize, couples: usize, chance: f64) -> Config {
    let mut conf = Config::from_opt(population, couples, Bernoulli::new(chance).unwrap()).unwrap();
    assert_eq!(conf.load_jobs(jobs), Ok(()));
    conf
}

fn two_by_two(population: usize) -> Config {
    config(vec![vec![op(0, 3), op(1, 2)], vec![op(1, 2), op(0, 4)]], population, 2, 0.5)
}

fn wide(population: usize, couples: usize, chance: f64) -> Config {
    let mut jobs = Vec::new();
    for j in 0..6 {
        let mut job = Vec::new();
        for k in 0..5 {
            job.push(op((j + k) % 4, (1 + j * 3 + k) as u64));
        }
        jobs.push(job);
    }
    config(jobs, population, couples, chance)
}

fn rng(seed: u64) -> Xoshiro256PlusPlus {
    Xoshiro256PlusPlus::seed_from_u64(seed)
}

fn sorted(entries: &[usize]) -> Vec<usize> {
    let mut copy = entries.to_vec();
    copy.sort();
    copy
}

fn sequences(pool: &Population) -> Vec<Vec<usize>> {
    pool.population.iter().map(|s| s.schedule.clone()).collect()
}

fn fixed_pool<'c>(conf: &'c Config, orders: Vec<Vec<usize>>) -> Population<'c> {
    let population = orders.into_iter().map(|schedule| Schedule { conf, schedule }).collect();
    Population { conf, population, rng: rng(0) }
}

fn sample_couples(pool: &mut Population) -> Vec<Couple> {
    let weights: Vec<f32> = pool.makespans().iter().map(|e| 1.0 / *e as f32).collect();
    let dist = WeightedIndex::new(weights).unwrap();
    let mut couples = Vec::new();
    for mut rng in pool.couple_rngs() {
        let parent_a = dist.sample(&mut rng);
        let parent_b = dist.sample(&mut rng);
        couples.push(Couple { parent_a, parent_b, rng });
    }
    couples
}

fn trajectory(seed: u64, generations: usize) -> Vec<u64> {
    let conf = wide(20, 8, 0.3);
    let mut pool = Population::new(&conf, rng(seed));
    let mut times = Vec::new();
    for _ in 0..generations {
        let couples = sample_couples(&mut pool);
        pool.recombine(couples);
        pool.mutate();
        let (_, time) = pool.select();
        times.push(time);
    }
    times
}

#[test]
fn split_generators_are_forks_before_each_jump() {
    let mut source = rng(9);
    let start = source.clone();
    let rngs = gen_rngs(&mut source, 3);
    assert_eq!(rngs.len(), 3);
    assert_eq!(rngs[0], start);
    let mut expected = start.clone();
    expected.jump();
    assert_eq!(rngs[1], expected);
    expected.jump();
    assert_eq!(rngs[2], expected);
    expected.jump();
    assert_eq!(source, expected);
    assert_ne!(rngs[0], rngs[1]);
}

#[test]
fn no_generators_leave_the_source_alone() {
    let mut source = rng(9);
    let rngs = gen_rngs(&mut source, 0);
    assert!(rngs.is_empty());
    assert_eq!(source, rng(9));
}

#[test]
fn a_new_population_has_the_configured_size() {
    let conf = wide(13, 4, 0.1);
    let pool = Population::new(&conf, rng(2));
    assert_eq!(pool.population.len(), 13);
    for s in &pool.population {
        assert_eq!(sorted(&s.schedule), conf.ordered_schedule);
        assert!(s.verify());
    }
}

#[test]
fn a_new_population_draws_each_individual_from_its_own_generator() {
    let conf = wide(3, 4, 0.1);
    let pool = Population::new(&conf, rng(2));
    let mut source = rng(2);
    let rngs = gen_rngs(&mut source, 3);
    let expected: Vec<Vec<usize>> =
        rngs.into_iter().map(|r| Schedule::new(&conf, r).schedule).collect();
    assert_eq!(sequences(&pool), expected);
    assert_eq!(pool.rng, source);
}

#[test]
fn makespans_follow_the_individuals() {
    let conf = two_by_two(2);
    let pool = fixed_pool(&conf, vec![vec![0, 0, 1, 1], vec![0, 1, 0, 1], vec![1, 1, 0, 0]]);
    assert_eq!(pool.makespans(), vec![11, 7, 11]);
}

#[test]
fn couple_generators_are_as_many_as_the_couples() {
    let conf = wide(5, 4, 0.1);
    let mut pool = Population::new(&conf, rng(2));
    let before = sequences(&pool);
    let mut source = pool.rng.clone();
    let rngs = pool.couple_rngs();
    assert_eq!(rngs, gen_rngs(&mut source, 4));
    assert_eq!(pool.rng, source);
    assert_eq!(sequences(&pool), before);
}

#[test]
fn a_couple_breeds_both_crossovers() {
    let conf = wide(2, 1, 0.1);
    let pool = Population::new(&conf, rng(6));
    let a = &pool.population[0];
    let b = &pool.population[1];
    let children = breed(&pool.population, &conf, Couple { parent_a: 0, parent_b: 1, rng: rng(77) });
    assert_eq!(children[0].schedule, a.crossover(b, rng(77)).schedule);
    assert_eq!(children[1].schedule, b.crossover(a, rng(77)).schedule);
}

#[test]
fn recombination_appends_two_children_for_each_couple() {
    let conf = wide(6, 3, 0.1);
    let mut pool = Population::new(&conf, rng(4));
    let before = sequences(&pool);
    let couples = vec![
        Couple { parent_a: 0, parent_b: 5, rng: rng(10) },
        Couple { parent_a: 2, parent_b: 2, rng: rng(11) },
        Couple { parent_a: 4, parent_b: 1, rng: rng(12) },
    ];
    let source = pool.rng.clone();
    pool.recombine(couples);
    assert_eq!(pool.population.len(), 12);
    assert_eq!(pool.rng, source);
    let after = sequences(&pool);
    assert_eq!(&after[..6], &before[..]);
    let parents = [(0, 5, 10), (2, 2, 11), (4, 1, 12)];
    for (k, (a, b, seed)) in parents.iter().enumerate() {
        let first = Schedule { conf: &conf, schedule: before[*a].clone() };
        let second = Schedule { conf: &conf, schedule: before[*b].clone() };
        assert_eq!(after[6 + 2 * k], first.crossover(&second, rng(*seed)).schedule);
        assert_eq!(after[7 + 2 * k], second.crossover(&first, rng(*seed)).schedule);
        assert_eq!(sorted(&after[6 + 2 * k]), conf.ordered_schedule);
        assert_eq!(sorted(&after[7 + 2 * k]), conf.ordered_schedule);
    }
}

#[test]
fn recombination_without_couples_changes_nothing() {
    let conf = wide(6, 0, 0.1);
    let mut pool = Population::new(&conf, rng(4));
    let before = sequences(&pool);
    pool.recombine(Vec::new());
    assert_eq!(sequences(&pool), before);
}

#[test]
fn mutation_keeps_every_individual_feasible() {
    let conf = wide(10, 3, 1.0);
    let mut pool = Population::new(&conf, rng(4));
    let before = sequences(&pool);
    pool.mutate();
    let after = sequences(&pool);
    assert_eq!(after.len(), 10);
    let mut changed = 0;
    for i in 0..10 {
        assert_eq!(sorted(&after[i]), conf.ordered_schedule);
        let moved = (0..before[i].len()).filter(|&p| before[i][p] != after[i][p]).count();
        assert!(moved == 0 || moved == 2);
        if moved == 2 {
            changed += 1;
        }
    }
    assert!(changed > 0);
}

#[test]
fn mutation_gives_each_individual_its_own_generator() {
    let conf = wide(5, 3, 1.0);
    let mut pool = Population::new(&conf, rng(4));
    let before = sequences(&pool);
    let mut source = pool.rng.clone();
    pool.mutate();
    let rngs = gen_rngs(&mut source, 5);
    for (i, r) in rngs.into_iter().enumerate() {
        let mut alone = Schedule { conf: &conf, schedule: before[i].clone() };
        alone.mutate(r);
        assert_eq!(pool.population[i].schedule, alone.schedule);
    }
    assert_eq!(pool.rng, source);
}

#[test]
fn mutation_with_chance_zero_leaves_the_pool() {
    let conf = wide(10, 3, 0.0);
    let mut pool = Population::new(&conf, rng(4));
    let before = sequences(&pool);
    let mut expected = pool.rng.clone();
    pool.mutate();
    assert_eq!(sequences(&pool), before);
    for _ in 0..10 {
        expected.jump();
    }
    assert_eq!(pool.rng, expected);
}

#[test]
fn a_new_population_keeps_the_generator_behind_its_jumps() {
    let conf = wide(4, 3, 0.1);
    let pool = Population::new(&conf, rng(13));
    let mut expected = rng(13);
    for _ in 0..4 {
        expected.jump();
    }
    assert_eq!(pool.rng, expected);
    assert_ne!(pool.rng, rng(13));
}

#[test]
fn selection_keeps_the_best_in_their_order() {
    let conf = two_by_two(3);
    let orders = vec![
        vec![0, 0, 1, 1],
        vec![0, 1, 0, 1],
        vec![1, 1, 0, 0],
        vec![1, 0, 1, 0],
        vec![0, 1, 1, 0],
    ];
    let mut pool = fixed_pool(&conf, orders);
    let (best, time) = pool.select();
    assert_eq!(time, 7);
    assert_eq!(best.schedule, vec![0, 1, 0, 1]);
    assert_eq!(
        sequences(&pool),
        vec![vec![0, 1, 0, 1], vec![1, 0, 1, 0], vec![0, 1, 1, 0]]
    );
}

#[test]
fn selection_prefers_the_first_among_equals() {
    let conf = two_by_two(4);
    let orders = vec![
        vec![1, 1, 0, 0],
        vec![0, 1, 1, 0],
        vec![0, 0, 1, 1],
        vec![1, 0, 0, 1],
        vec![1, 0, 1, 0],
        vec![0, 0, 1, 1],
    ];
    let mut pool = fixed_pool(&conf, orders);
    let (best, time) = pool.select();
    assert_eq!(time, 7);
    assert_eq!(best.schedule, vec![0, 1, 1, 0]);
    assert_eq!(
        sequences(&pool),
        vec![vec![1, 1, 0, 0], vec![0, 1, 1, 0], vec![1, 0, 0, 1], vec![1, 0, 1, 0]]
    );
}

#[test]
fn selection_of_a_pool_of_the_right_size_keeps_it() {
    let conf = two_by_two(2);
    let mut pool = fixed_pool(&conf, vec![vec![0, 0, 1, 1], vec![1, 0, 0, 1]]);
    let (best, time) = pool.select();
    assert_eq!(time, 7);
    assert_eq!(best.schedule, vec![1, 0, 0, 1]);
    assert_eq!(sequences(&pool), vec![vec![0, 0, 1, 1], vec![1, 0, 0, 1]]);
}

#[test]
fn selection_down_to_one_keeps_the_first_best() {
    let conf = two_by_two(1);
    let orders = vec![vec![0, 0, 1, 1], vec![1, 0, 0, 1], vec![0, 1, 0, 1]];
    let mut pool = fixed_pool(&conf, orders);
    let (best, time) = pool.select();
    assert_eq!(time, 7);
    assert_eq!(best.schedule, vec![1, 0, 0, 1]);
    assert_eq!(sequences(&pool), vec![vec![1, 0, 0, 1]]);
}

#[test]
fn selection_returns_the_least_makespan_of_the_pool() {
    let conf = wide(10, 6, 0.5);
    let mut pool = Population::new(&conf, rng(8));
    let couples = sample_couples(&mut pool);
    pool.recombine(couples);
    pool.mutate();
    assert_eq!(pool.population.len(), 22);
    let times = pool.makespans();
    let least = *times.iter().min().unwrap();
    let before = sequences(&pool);
    let mut order: Vec<usize> = (0..22).collect();
    order.sort_by_key(|&i| (times[i], i));
    let mut kept: Vec<usize> = order[..10].to_vec();
    kept.sort();
    let expected: Vec<Vec<usize>> = kept.iter().map(|&i| before[i].clone()).collect();
    let (best, time) = pool.select();
    assert_eq!(time, least);
    assert_eq!(best.evaluate(), least);
    assert_eq!(best.schedule, before[order[0]]);
    assert_eq!(pool.population.len(), 10);
    assert_eq!(sequences(&pool), expected);
}

#[test]
fn equal_seeds_give_equal_trajectories() {
    assert_eq!(trajectory(42, 12), trajectory(42, 12));
    assert_eq!(trajectory(7, 12), trajectory(7, 12));
}

#[test]
fn generators_advance_when_drawn_from() {
    let mut a = rng(1);
    let b = a.clone();
    a.next_u64();
    assert_ne!(a, b);
}
